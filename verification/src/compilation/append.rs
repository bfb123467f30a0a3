//! Appending rules, child lists, effective keys, declaration blocks and
//! declarations at the end of their stores, in lexical parse order.

use super::{
    declaration_at, lemma_distinct_below_len, rule_at, same_blocks_except, same_declaration_side,
    same_rule_side, wrapping_inc, same_lists_except, same_rule_fields,
    with_label, with_next_in_source, with_next_sibling, AstContext,
};
use crate::effective_key::EffectiveKeyData;
use crate::fx_map::{fx_table_contents, fx_table_get, fx_table_insert};
use crate::ids::{DeclarationBlockId, DeclarationId, EffectiveKeyId, RuleId, RuleListId, SourceOrderId};
use crate::records::{
    DeclarationBlockOwner, DeclarationBlockRecord, DeclarationRecord, MutationError, RuleList, RuleRecord, DENSE_CAPACITY,
};
use crate::span::{dummy_sp, spec_dummy_sp, Span};
use vstd::prelude::*;

verus! {

impl<R, D> AstContext<R, D> {
    /// The live rules of every list have fewer members than there are rules.
    pub(super) proof fn lemma_list_len_bounded(&self, l: int)
        requires
            self.wf(),
            0 <= l < self.rule_lists@.len(),
        ensures
            self.lists@[l].len() <= self.rules@.len(),
    {
        reveal(AstContext::wf_lists);
        let s = self.lists@[l];
        assert forall|i: int, j: int| 0 <= i < j < s.len() implies s[i] != s[j] by {
            assert(self.list_pos@[s[i] as int] == i);
            assert(self.list_pos@[s[j] as int] == j);
        }
        lemma_distinct_below_len(s, self.rules@.len() as int);
    }

    /// Facts about a well-formed context that appending a rule to list `l`
    /// relies on.
    proof fn lemma_append_rule_preconditions(&self, l: int)
        requires
            self.wf(),
            0 <= l < self.rule_lists@.len(),
        ensures
            self.last_rule_in_source matches Some(p) ==> (p.0 as int) < self.rules@.len(),
            self.rule_lists@[l].last matches Some(p) ==> (p.0 as int) < self.rules@.len(),
            self.rule_lists@[l].live_len < self.rules@.len() + 1,
            self.rule_spans@.len() == self.rules@.len(),
    {
        reveal(AstContext::wf_sizes);
        reveal(AstContext::wf_source);
        reveal(AstContext::wf_lists);
        self.lemma_list_len_bounded(l);
        if self.last_rule_in_source is Some {
            assert(self.source@[self.rules@.len() - 1] < self.rules@.len());
        }
        let s = self.lists@[l];
        if s.len() > 0 {
            assert(s[s.len() - 1] < self.rules@.len());
        }
    }

    /// `self` is `mid` after the store and link updates of a rule append to
    /// `list` with label `label`.
    closed spec fn is_rule_append_step(&self, mid: &Self, list: RuleListId, label: u64) -> bool {
        let n = mid.rules@.len();
        let l = list.0 as int;
        let old_list = mid.rule_lists@[l];
        let id = RuleId(n as u32);
        let last = mid.last_rule_in_source;
        let r1 = self.rules@[n as int];
        let step1 = mid.rules@.push(r1);
        let step2 = match last {
            Some(p) => step1.update(p.0 as int, with_next_in_source(step1[p.0 as int], Some(id))),
            None => step1,
        };
        let step3 = match old_list.last {
            Some(p) => step2.update(p.0 as int, with_next_sibling(step2[p.0 as int], Some(id))),
            None => step2,
        };
        &&& self.rules@.len() == n + 1
        &&& r1.source_order_id == SourceOrderId(label)
        &&& r1.parent == old_list.parent
        &&& r1.parent_list == list
        &&& r1.previous_sibling == old_list.last
        &&& r1.next_sibling is None
        &&& r1.previous_in_source == last
        &&& r1.next_in_source is None
        &&& r1.child_list is None
        &&& r1.declaration_block is None
        &&& r1.revision == 0
        &&& r1.live
        &&& self.rules@ == step3
        &&& self.rule_spans@.len() == n + 1
        &&& self.rule_spans@.subrange(0, n as int) == mid.rule_spans@
        &&& self.first_rule_in_source == (if last is None { Some(id) } else { mid.first_rule_in_source })
        &&& self.last_rule_in_source == Some(id)
        &&& self.rule_lists@ == mid.rule_lists@.update(l, RuleList {
            parent: old_list.parent,
            first: if old_list.first is None { Some(id) } else { old_list.first },
            last: Some(id),
            live_len: (old_list.live_len + 1) as u32,
        })
        &&& self.source@ == mid.source@.push(n as u32)
        &&& self.source_pos@ == mid.source_pos@.push(n as int)
        &&& self.lists@ == mid.lists@.update(l, mid.lists@[l].push(n as u32))
        &&& self.list_pos@ == mid.list_pos@.push(mid.lists@[l].len() as int)
        &&& self.stylesheet == mid.stylesheet
        &&& self.license_comments@ == mid.license_comments@
        &&& self.declaration_blocks@ == mid.declaration_blocks@
        &&& self.declarations@ == mid.declarations@
        &&& self.effective_keys@ == mid.effective_keys@
        &&& self.effective_key_ids == mid.effective_key_ids
        &&& self.chains@ == mid.chains@
        &&& self.decl_owner@ == mid.decl_owner@
        &&& self.decl_pos@ == mid.decl_pos@
    }

    /// An old rule changes under a rule append step only in the two links
    /// that now reach the new rule.
    proof fn lemma_rule_append_old_rules(mid: Self, post: Self, list: RuleListId, label: u64)
        requires
            mid.wf(),
            (list.0 as int) < mid.rule_lists@.len(),
            mid.rules@.len() < DENSE_CAPACITY,
            mid.last_rule_in_source matches Some(p) ==> mid.rules@[p.0 as int].source_order_id.0 < label,
            post.is_rule_append_step(&mid, list, label),
        ensures
            forall|x: int| 0 <= x < mid.rules@.len() ==> {
                let a = #[trigger] post.rules@[x];
                let b = mid.rules@[x];
                &&& same_rule_fields(a, b)
                &&& a.source_order_id == b.source_order_id
                &&& a.previous_in_source == b.previous_in_source
                &&& a.previous_sibling == b.previous_sibling
                &&& a.next_in_source == (if mid.last_rule_in_source == Some(RuleId(x as u32)) {
                    Some(RuleId(mid.rules@.len() as u32))
                } else {
                    b.next_in_source
                })
                &&& a.next_sibling == (if mid.rule_lists@[list.0 as int].last == Some(RuleId(x as u32)) {
                    Some(RuleId(mid.rules@.len() as u32))
                } else {
                    b.next_sibling
                })
            },
    {
        let n = mid.rules@.len();
        let l = list.0 as int;
        let old_list = mid.rule_lists@[l];
        let id = RuleId(n as u32);
        let last = mid.last_rule_in_source;
        assert(mid.lists@[l].len() == old_list.live_len && old_list.first == rule_at(mid.lists@[l], 0)
            && old_list.last == rule_at(mid.lists@[l], mid.lists@[l].len() - 1)) by {
            reveal(AstContext::wf_lists);
        }
        assert(last == rule_at(mid.source@, n - 1) && mid.source@.len() == n) by {
            reveal(AstContext::wf_source);
        }
        // Every old rule keeps its fields but for the two updated links.
        assert forall|x: int| 0 <= x < n implies {
            let a = #[trigger] post.rules@[x];
            let b = mid.rules@[x];
            &&& same_rule_fields(a, b)
            &&& a.source_order_id == b.source_order_id
            &&& a.previous_in_source == b.previous_in_source
            &&& a.previous_sibling == b.previous_sibling
            &&& a.next_in_source == (if last == Some(RuleId(x as u32)) { Some(id) } else { b.next_in_source })
            &&& a.next_sibling == (if old_list.last == Some(RuleId(x as u32)) { Some(id) } else { b.next_sibling })
        } by {
            if last is Some {
                assert(last.unwrap().0 < n) by { reveal(AstContext::wf_source); }
            }
            if old_list.last is Some {
                assert(old_list.last.unwrap().0 < n) by {
                    reveal(AstContext::wf_lists);
                    assert(mid.lists@[l][mid.lists@[l].len() - 1] < n);
                }
            }
        }
    }

    /// A rule append step keeps the source chain well formed.
    proof fn lemma_rule_append_source(mid: Self, post: Self, list: RuleListId, label: u64)
        requires
            mid.wf(),
            (list.0 as int) < mid.rule_lists@.len(),
            mid.rules@.len() < DENSE_CAPACITY,
            mid.last_rule_in_source matches Some(p) ==> mid.rules@[p.0 as int].source_order_id.0 < label,
            post.is_rule_append_step(&mid, list, label),
            forall|x: int| 0 <= x < mid.rules@.len() ==> {
                let a = #[trigger] post.rules@[x];
                let b = mid.rules@[x];
                &&& same_rule_fields(a, b)
                &&& a.source_order_id == b.source_order_id
                &&& a.previous_in_source == b.previous_in_source
                &&& a.previous_sibling == b.previous_sibling
                &&& a.next_in_source == (if mid.last_rule_in_source == Some(RuleId(x as u32)) {
                    Some(RuleId(mid.rules@.len() as u32))
                } else {
                    b.next_in_source
                })
                &&& a.next_sibling == (if mid.rule_lists@[list.0 as int].last == Some(RuleId(x as u32)) {
                    Some(RuleId(mid.rules@.len() as u32))
                } else {
                    b.next_sibling
                })
            },
        ensures
            post.wf_source(),
    {
        let n = mid.rules@.len();
        let l = list.0 as int;
        let old_list = mid.rule_lists@[l];
        let id = RuleId(n as u32);
        let last = mid.last_rule_in_source;
        assert(mid.lists@[l].len() == old_list.live_len && old_list.first == rule_at(mid.lists@[l], 0)
            && old_list.last == rule_at(mid.lists@[l], mid.lists@[l].len() - 1)) by {
            reveal(AstContext::wf_lists);
        }
        assert(last == rule_at(mid.source@, n - 1) && mid.source@.len() == n) by {
            reveal(AstContext::wf_source);
        }
        let s = mid.source@;
        let s2 = post.source@;
        assert(post.wf_sizes()) by {
            reveal(AstContext::wf_sizes);
        }
        assert(post.wf_source()) by {
            reveal(AstContext::wf_source);
            assert forall|i: int| 0 <= i < n + 1 implies (#[trigger] s2[i]) < n + 1 && post.source_pos@[s2[i] as int] == i by {
                if i < n {
                    assert(s2[i] == s[i]);
                }
            }
            assert forall|i: int| 0 <= i < n + 1 implies {
                &&& (#[trigger] post.rules@[s2[i] as int]).previous_in_source == rule_at(s2, i - 1)
                &&& post.rules@[s2[i] as int].next_in_source == rule_at(s2, i + 1)
            } by {
                if i < n {
                    assert(s2[i] == s[i]);
                    assert(s[i] < n);
                    if i + 1 < n {
                        assert(s2[i + 1] == s[i + 1]);
                        assert(last != Some(RuleId(s[i])));
                    }
                    if i > 0 {
                        assert(s2[i - 1] == s[i - 1]);
                    }
                } else {
                    if n > 0 {
                        assert(s2[n - 1] == s[n - 1]);
                    }
                }
            }
            assert forall|i: int, j: int| 0 <= i < j < n + 1 implies
                (#[trigger] post.rules@[s2[i] as int]).source_order_id.0 < (#[trigger] post.rules@[s2[j] as int]).source_order_id.0 by {
                assert(s2[i] == s[i]);
                assert(s[i] < n);
                if j < n {
                    assert(s2[j] == s[j]);
                } else if i < n - 1 {
                    assert(mid.rules@[s[i] as int].source_order_id.0 < mid.rules@[s[n - 1] as int].source_order_id.0);
                }
            }
        }
    }

    /// A rule append step keeps the rule lists well formed.
    proof fn lemma_rule_append_lists(mid: Self, post: Self, list: RuleListId, label: u64)
        requires
            mid.wf(),
            (list.0 as int) < mid.rule_lists@.len(),
            mid.rules@.len() < DENSE_CAPACITY,
            mid.last_rule_in_source matches Some(p) ==> mid.rules@[p.0 as int].source_order_id.0 < label,
            post.is_rule_append_step(&mid, list, label),
            forall|x: int| 0 <= x < mid.rules@.len() ==> {
                let a = #[trigger] post.rules@[x];
                let b = mid.rules@[x];
                &&& same_rule_fields(a, b)
                &&& a.source_order_id == b.source_order_id
                &&& a.previous_in_source == b.previous_in_source
                &&& a.previous_sibling == b.previous_sibling
                &&& a.next_in_source == (if mid.last_rule_in_source == Some(RuleId(x as u32)) {
                    Some(RuleId(mid.rules@.len() as u32))
                } else {
                    b.next_in_source
                })
                &&& a.next_sibling == (if mid.rule_lists@[list.0 as int].last == Some(RuleId(x as u32)) {
                    Some(RuleId(mid.rules@.len() as u32))
                } else {
                    b.next_sibling
                })
            },
        ensures
            post.wf_lists(),
    {
        let n = mid.rules@.len();
        let l = list.0 as int;
        let old_list = mid.rule_lists@[l];
        let id = RuleId(n as u32);
        let last = mid.last_rule_in_source;
        assert(mid.lists@[l].len() == old_list.live_len && old_list.first == rule_at(mid.lists@[l], 0)
            && old_list.last == rule_at(mid.lists@[l], mid.lists@[l].len() - 1)) by {
            reveal(AstContext::wf_lists);
        }
        assert(last == rule_at(mid.source@, n - 1) && mid.source@.len() == n) by {
            reveal(AstContext::wf_source);
        }
        let ls = mid.lists@[l];
        mid.lemma_list_len_bounded(l);
        assert(post.wf_lists()) by {
            reveal(AstContext::wf_lists);
            reveal(AstContext::wf_sizes);
            let nl = post.rule_lists@.len();
            assert forall|m: int| 0 <= m < nl implies {
                let q = #[trigger] post.lists@[m];
                &&& q.len() == post.rule_lists@[m].live_len
                &&& post.rule_lists@[m].first == rule_at(q, 0)
                &&& post.rule_lists@[m].last == rule_at(q, q.len() - 1)
            } by {
                if m == l {
                    assert(post.lists@[m] == ls.push(n as u32));
                    if ls.len() > 0 {
                        assert(post.lists@[m][0] == ls[0]);
                    }
                } else {
                    assert(post.lists@[m] == mid.lists@[m]);
                    assert(post.rule_lists@[m] == mid.rule_lists@[m]);
                }
            }
            assert forall|m: int, i: int| 0 <= m < nl && 0 <= i < post.lists@[m].len() implies {
                let r = #[trigger] post.lists@[m][i];
                &&& r < n + 1
                &&& post.rules@[r as int].live
                &&& post.rules@[r as int].parent_list == RuleListId(m as u32)
                &&& post.list_pos@[r as int] == i
                &&& post.rules@[r as int].previous_sibling == rule_at(post.lists@[m], i - 1)
                &&& post.rules@[r as int].next_sibling == rule_at(post.lists@[m], i + 1)
            } by {
                if m == l {
                    if i < ls.len() {
                        assert(post.lists@[m][i] == ls[i]);
                        assert(ls[i] < n);
                        if i + 1 < ls.len() {
                            assert(post.lists@[m][i + 1] == ls[i + 1]);
                            assert(old_list.last != Some(RuleId(ls[i])));
                        }
                        if i > 0 {
                            assert(post.lists@[m][i - 1] == ls[i - 1]);
                        }
                    } else {
                        if ls.len() > 0 {
                            assert(post.lists@[m][i - 1] == ls[i - 1]);
                        }
                    }
                } else {
                    let r = mid.lists@[m][i];
                    assert(r < n);
                    assert(mid.rules@[r as int].parent_list == RuleListId(m as u32));
                    if old_list.last == Some(RuleId(r)) {
                        assert(ls[ls.len() - 1] == r);
                        assert(mid.rules@[r as int].parent_list == RuleListId(l as u32));
                        assert(false);
                    }
                }
            }
            assert forall|r: int| 0 <= r < n + 1 implies {
                let rec = #[trigger] post.rules@[r];
                &&& (rec.parent_list.0 as int) < nl
                &&& rec.parent == post.rule_lists@[rec.parent_list.0 as int].parent
                &&& (rec.live ==> 0 <= post.list_pos@[r] < post.lists@[rec.parent_list.0 as int].len()
                    && post.lists@[rec.parent_list.0 as int][post.list_pos@[r]] == r)
                &&& (!rec.live ==> rec.previous_sibling is None && rec.next_sibling is None)
            } by {
                if r < n {
                    let pl = mid.rules@[r].parent_list.0 as int;
                    if pl == l && mid.rules@[r].live {
                        assert(post.lists@[pl][post.list_pos@[r]] == ls[mid.list_pos@[r]]);
                    }
                    if !mid.rules@[r].live && old_list.last == Some(RuleId(r as u32)) {
                        assert(ls[ls.len() - 1] == r);
                    }
                }
            }
        }
    }

    /// A rule append step keeps the context well formed and appends exactly
    /// one rule to `list` and to global source order.
    proof fn lemma_rule_append_step(pre: Self, mid: Self, post: Self, list: RuleListId, payload: R, span: Span, label: u64)
        requires
            pre.wf(),
            mid.wf(),
            mid.same_except_labels(&pre),
            (list.0 as int) < mid.rule_lists@.len(),
            mid.rules@.len() < DENSE_CAPACITY,
            mid.last_rule_in_source matches Some(p) ==> mid.rules@[p.0 as int].source_order_id.0 < label,
            post.is_rule_append_step(&mid, list, label),
            post.rules@[mid.rules@.len() as int].payload == payload,
            post.rule_spans@[mid.rules@.len() as int] == span,
        ensures
            post.wf(),
            post.is_rule_append_of(&pre, list, payload, span),
    {
        Self::lemma_rule_append_old_rules(mid, post, list, label);
        Self::lemma_rule_append_source(mid, post, list, label);
        Self::lemma_rule_append_lists(mid, post, list, label);
        let n = mid.rules@.len();
        let l = list.0 as int;
        let old_list = mid.rule_lists@[l];
        let id = RuleId(n as u32);
        let last = mid.last_rule_in_source;
        assert(post.rule_spans@ =~= mid.rule_spans@.push(span));
        assert(mid.lists@[l].len() == old_list.live_len && old_list.first == rule_at(mid.lists@[l], 0)
            && old_list.last == rule_at(mid.lists@[l], mid.lists@[l].len() - 1)) by {
            reveal(AstContext::wf_lists);
        }
        assert(last == rule_at(mid.source@, n - 1) && mid.source@.len() == n) by {
            reveal(AstContext::wf_source);
        }
        assert(post.wf_sizes()) by {
            reveal(AstContext::wf_sizes);
        }
        assert(post.wf_tree()) by {
            reveal(AstContext::wf_tree);
            if old_list.parent is Some {
                assert(old_list.parent.unwrap().0 < n);
            }
        }
        assert(post.wf_blocks()) by {
            reveal(AstContext::wf_blocks);
        }
        assert(post.wf_keys()) by {
            reveal(AstContext::wf_keys);
        }
        assert(mid.lists@.len() == mid.rule_lists@.len() && pre.chains@.len() == pre.declaration_blocks@.len()) by {
            reveal(AstContext::wf_lists);
            reveal(AstContext::wf_blocks);
        }
        assert forall|x: int| 0 <= x < n implies same_rule_fields(#[trigger] post.spec_rule(x), pre.spec_rule(x)) by {
            assert(mid.rules@[x] == with_label(pre.rules@[x], mid.rules@[x].source_order_id.0));
        }
        assert forall|x: int| 0 <= x < n implies #[trigger] post.spec_rule_span(x) == pre.spec_rule_span(x) by {
            assert(post.rule_spans@[x] == mid.rule_spans@[x]);
        }
    }

    /// Appends one authored rule to `list` in lexical parse order, with the
    /// span of synthesized syntax.
    pub fn append_rule(&mut self, list: RuleListId, payload: R) -> (r: Result<RuleId, MutationError>)
        requires
            old(self).wf(),
        ensures
            final(self).wf(),
            r == Self::spec_append_rule_result(old(self), list),
            r is Ok ==> final(self).is_rule_append_of(old(self), list, payload, spec_dummy_sp()),
            r is Err ==> *final(self) == *old(self),
    {
        self.append_rule_with_span(list, payload, dummy_sp())
    }

    /// What appending a rule to `list` returns.
    pub open spec fn spec_append_rule_result(old: &Self, list: RuleListId) -> Result<RuleId, MutationError> {
        if list.0 >= old.list_count() {
            Err(MutationError::UnknownRuleList(list))
        } else if old.rule_count() >= DENSE_CAPACITY {
            Err(MutationError::RuleCapacityExhausted)
        } else {
            Ok(RuleId(old.rule_count() as u32))
        }
    }

    /// `self` is `old` with one new live rule at the end of list `list` and
    /// at the end of global source order.
    pub open spec fn is_rule_append_of(&self, old: &Self, list: RuleListId, payload: R, span: Span) -> bool {
        let n = old.rule_count();
        let l = list.0 as int;
        let old_list = old.spec_list(l);
        let id = RuleId(n as u32);
        &&& self.rule_count() == n + 1
        &&& self.source_seq() == old.source_seq().push(n as u32)
        &&& self.list_seq(l) == old.list_seq(l).push(n as u32)
        &&& self.spec_list(l) == (RuleList {
            parent: old_list.parent,
            first: if old_list.first is None { Some(id) } else { old_list.first },
            last: Some(id),
            live_len: (old_list.live_len + 1) as u32,
        })
        &&& same_lists_except(self, old, l)
        &&& self.spec_rule(n as int).payload == payload
        &&& self.spec_rule(n as int).parent == old_list.parent
        &&& self.spec_rule(n as int).parent_list == list
        &&& self.spec_rule(n as int).child_list is None
        &&& self.spec_rule(n as int).declaration_block is None
        &&& self.spec_rule(n as int).revision == 0
        &&& self.spec_rule(n as int).live
        &&& self.spec_rule_span(n as int) == span
        &&& forall|x: int| 0 <= x < n ==> same_rule_fields(#[trigger] self.spec_rule(x), old.spec_rule(x))
        &&& forall|x: int| 0 <= x < n ==> #[trigger] self.spec_rule_span(x) == old.spec_rule_span(x)
        &&& same_declaration_side(self, old)
    }

    /// Appends one authored rule to `list` and stores its source span beside
    /// the rule record.
    ///
    /// Every fallible check happens before any store or link changes.
    pub fn append_rule_with_span(&mut self, list: RuleListId, payload: R, span: Span) -> (r: Result<RuleId, MutationError>)
        requires
            old(self).wf(),
        ensures
            final(self).wf(),
            r == Self::spec_append_rule_result(old(self), list),
            r is Ok ==> final(self).is_rule_append_of(old(self), list, payload, span),
            r is Err ==> *final(self) == *old(self),
    {
        let li = list.0 as usize;
        if li >= self.rule_lists.len() {
            return Err(MutationError::UnknownRuleList(list));
        }
        let parent = self.rule_lists[li].parent;
        let previous_sibling = self.rule_lists[li].last;
        if self.rules.len() >= DENSE_CAPACITY {
            return Err(MutationError::RuleCapacityExhausted);
        }
        let ghost pre = *self;
        let ghost n = self.rules@.len();
        let last = self.last_rule_in_source;
        proof {
            reveal(AstContext::wf_source);
            assert(last == rule_at(self.source@, n - 1));
        }
        let source_order_id = match self.source_order_id_between(last, None, Ghost(n as int)) {
            Ok(v) => v,
            Err(e) => {
                return Err(e);
            },
        };
        let ghost mid = *self;
        proof {
            mid.lemma_append_rule_preconditions(li as int);
        }
        let id = RuleId(self.rules.len() as u32);
        self.rules.push(RuleRecord {
            payload,
            source_order_id,
            parent,
            parent_list: list,
            previous_sibling,
            next_sibling: None,
            previous_in_source: last,
            next_in_source: None,
            child_list: None,
            declaration_block: None,
            revision: 0,
            live: true,
        });
        self.rule_spans.push(span);
        match last {
            Some(previous) => {
                self.rules[previous.0 as usize].next_in_source = Some(id);
            },
            None => {
                self.first_rule_in_source = Some(id);
            },
        }
        self.last_rule_in_source = Some(id);
        if let Some(previous) = previous_sibling {
            self.rules[previous.0 as usize].next_sibling = Some(id);
        }
        let mut list_record = self.rule_lists[li];
        if list_record.first.is_none() {
            list_record.first = Some(id);
        }
        list_record.last = Some(id);
        list_record.live_len = list_record.live_len + 1;
        self.rule_lists.set(li, list_record);
        proof {
            let old_len = self.lists@[li as int].len();
            self.source@ = self.source@.push(n as u32);
            self.source_pos@ = self.source_pos@.push(n as int);
            self.lists@ = self.lists@.update(li as int, self.lists@[li as int].push(n as u32));
            self.list_pos@ = self.list_pos@.push(old_len as int);
            assert(self.rule_spans@.subrange(0, n as int) =~= mid.rule_spans@);
            assert(self.is_rule_append_step(&mid, list, source_order_id.0));
            Self::lemma_rule_append_step(pre, mid, *self, list, payload, span, source_order_id.0);
        }
        Ok(id)
    }
}

} // verus!

verus! {

/// `rec` owning the child list `list`.
pub open spec fn with_child_list<R>(rec: RuleRecord<R>, list: Option<RuleListId>) -> RuleRecord<R> {
    RuleRecord { child_list: list, ..rec }
}

impl<R, D> AstContext<R, D> {
    /// What creating the child list of `parent` returns.
    pub open spec fn spec_create_child_list_result(old: &Self, parent: RuleId) -> Result<RuleListId, MutationError> {
        if parent.0 >= old.rule_count() {
            Err(MutationError::UnknownRule(parent))
        } else if !old.spec_rule(parent.0 as int).live {
            Err(MutationError::RetiredRule(parent))
        } else if old.spec_rule(parent.0 as int).child_list is Some {
            Err(MutationError::ChildListAlreadyExists(parent))
        } else if old.list_count() >= DENSE_CAPACITY {
            Err(MutationError::RuleListCapacityExhausted)
        } else {
            Ok(RuleListId(old.list_count() as u32))
        }
    }

    /// `self` is `old` with one new empty list owned by `parent`.
    pub open spec fn is_child_list_creation_of(&self, old: &Self, parent: RuleId) -> bool {
        let nl = old.list_count();
        let p = parent.0 as int;
        &&& self.list_count() == nl + 1
        &&& forall|m: int| 0 <= m < nl ==> #[trigger] self.spec_list(m) == old.spec_list(m)
        &&& forall|m: int| 0 <= m < nl ==> #[trigger] self.list_seq(m) == old.list_seq(m)
        &&& self.spec_list(nl as int) == (RuleList { parent: Some(parent), first: None, last: None, live_len: 0 })
        &&& self.list_seq(nl as int) == Seq::<u32>::empty()
        &&& self.rule_count() == old.rule_count()
        &&& self.spec_rule(p) == with_child_list(old.spec_rule(p), Some(RuleListId(nl as u32)))
        &&& forall|x: int| 0 <= x < old.rule_count() && x != p ==> #[trigger] self.spec_rule(x) == old.spec_rule(x)
        &&& forall|x: int| 0 <= x < old.rule_count() ==> #[trigger] self.spec_rule_span(x) == old.spec_rule_span(x)
        &&& self.source_seq() == old.source_seq()
        &&& same_declaration_side(self, old)
    }

    /// Creates the one direct child list owned by `parent`.
    pub fn create_child_list(&mut self, parent: RuleId) -> (r: Result<RuleListId, MutationError>)
        requires
            old(self).wf(),
        ensures
            final(self).wf(),
            r == Self::spec_create_child_list_result(old(self), parent),
            r is Ok ==> final(self).is_child_list_creation_of(old(self), parent),
            r is Err ==> *final(self) == *old(self),
    {
        let p = parent.0 as usize;
        if p >= self.rules.len() {
            return Err(MutationError::UnknownRule(parent));
        }
        if !self.rules[p].live {
            return Err(MutationError::RetiredRule(parent));
        }
        if self.rules[p].child_list.is_some() {
            return Err(MutationError::ChildListAlreadyExists(parent));
        }
        if self.rule_lists.len() >= DENSE_CAPACITY {
            return Err(MutationError::RuleListCapacityExhausted);
        }
        let ghost pre = *self;
        let list = RuleListId(self.rule_lists.len() as u32);
        self.rule_lists.push(RuleList { parent: Some(parent), first: None, last: None, live_len: 0 });
        self.rules[p].child_list = Some(list);
        proof {
            self.lists@ = self.lists@.push(Seq::<u32>::empty());
            Self::lemma_child_list_step(pre, *self, parent);
        }
        Ok(list)
    }

    /// Creating a child list keeps the context well formed.
    proof fn lemma_child_list_step(pre: Self, post: Self, parent: RuleId)
        requires
            pre.wf(),
            (parent.0 as int) < pre.rules@.len(),
            pre.rules@[parent.0 as int].live,
            pre.rules@[parent.0 as int].child_list is None,
            pre.rule_lists@.len() < DENSE_CAPACITY,
            post.rule_lists@ == pre.rule_lists@.push(
                RuleList { parent: Some(parent), first: None, last: None, live_len: 0 },
            ),
            post.rules@ == pre.rules@.update(
                parent.0 as int,
                with_child_list(pre.rules@[parent.0 as int], Some(RuleListId(pre.rule_lists@.len() as u32))),
            ),
            post.lists@ == pre.lists@.push(Seq::<u32>::empty()),
            post.stylesheet == pre.stylesheet,
            post.license_comments@ == pre.license_comments@,
            post.rule_spans@ == pre.rule_spans@,
            post.declaration_blocks@ == pre.declaration_blocks@,
            post.declarations@ == pre.declarations@,
            post.effective_keys@ == pre.effective_keys@,
            post.effective_key_ids == pre.effective_key_ids,
            post.first_rule_in_source == pre.first_rule_in_source,
            post.last_rule_in_source == pre.last_rule_in_source,
            post.source@ == pre.source@,
            post.source_pos@ == pre.source_pos@,
            post.list_pos@ == pre.list_pos@,
            post.chains@ == pre.chains@,
            post.decl_owner@ == pre.decl_owner@,
            post.decl_pos@ == pre.decl_pos@,
        ensures
            post.wf(),
            post.is_child_list_creation_of(&pre, parent),
    {
        let nl = pre.rule_lists@.len();
        let p = parent.0 as int;
        assert(pre.lists@.len() == nl && pre.chains@.len() == pre.declaration_blocks@.len()) by {
            reveal(AstContext::wf_lists);
            reveal(AstContext::wf_blocks);
        }
        assert(post.wf_sizes()) by {
            reveal(AstContext::wf_sizes);
        }
        assert(post.wf_source()) by {
            reveal(AstContext::wf_source);
            assert forall|i: int| 0 <= i < pre.rules@.len() implies {
                &&& (#[trigger] post.rules@[post.source@[i] as int]).previous_in_source == rule_at(post.source@, i - 1)
                &&& post.rules@[post.source@[i] as int].next_in_source == rule_at(post.source@, i + 1)
            } by {
                assert(pre.source@[i] < pre.rules@.len());
            }
            assert forall|i: int, j: int| 0 <= i < j < pre.rules@.len() implies
                (#[trigger] post.rules@[post.source@[i] as int]).source_order_id.0
                    < (#[trigger] post.rules@[post.source@[j] as int]).source_order_id.0 by {
                assert(pre.source@[i] < pre.rules@.len());
                assert(pre.source@[j] < pre.rules@.len());
                assert(pre.rules@[pre.source@[i] as int].source_order_id.0 < pre.rules@[pre.source@[j] as int].source_order_id.0);
            }
        }
        assert(post.wf_lists()) by {
            reveal(AstContext::wf_lists);
            assert forall|m: int| 0 <= m < nl + 1 implies {
                let s = #[trigger] post.lists@[m];
                &&& s.len() == post.rule_lists@[m].live_len
                &&& post.rule_lists@[m].first == rule_at(s, 0)
                &&& post.rule_lists@[m].last == rule_at(s, s.len() - 1)
            } by {
                if m < nl {
                    assert(post.lists@[m] == pre.lists@[m]);
                    assert(post.rule_lists@[m] == pre.rule_lists@[m]);
                }
            }
            assert forall|m: int, i: int| 0 <= m < nl + 1 && 0 <= i < post.lists@[m].len() implies {
                let r = #[trigger] post.lists@[m][i];
                &&& r < pre.rules@.len()
                &&& post.rules@[r as int].live
                &&& post.rules@[r as int].parent_list == RuleListId(m as u32)
                &&& post.list_pos@[r as int] == i
                &&& post.rules@[r as int].previous_sibling == rule_at(post.lists@[m], i - 1)
                &&& post.rules@[r as int].next_sibling == rule_at(post.lists@[m], i + 1)
            } by {
                assert(post.lists@[m] == pre.lists@[m]);
                assert(pre.lists@[m][i] < pre.rules@.len());
            }
            assert forall|r: int| 0 <= r < pre.rules@.len() implies {
                let rec = #[trigger] post.rules@[r];
                &&& (rec.parent_list.0 as int) < nl + 1
                &&& rec.parent == post.rule_lists@[rec.parent_list.0 as int].parent
                &&& (rec.live ==> 0 <= post.list_pos@[r] < post.lists@[rec.parent_list.0 as int].len()
                    && post.lists@[rec.parent_list.0 as int][post.list_pos@[r]] == r)
                &&& (!rec.live ==> rec.previous_sibling is None && rec.next_sibling is None)
            } by {
                assert(pre.rules@[r].parent_list.0 < nl);
            }
        }
        assert(post.wf_tree()) by {
            reveal(AstContext::wf_tree);
            reveal(AstContext::wf_sizes);
            assert forall|m: int| 0 <= m < nl + 1 implies match (#[trigger] post.rule_lists@[m]).parent {
                Some(q) => (q.0 as int) < pre.rules@.len() && post.rules@[q.0 as int].live
                    && post.rules@[q.0 as int].child_list == Some(RuleListId(m as u32)),
                None => true,
            } by {
                if m < nl {
                    assert(post.rule_lists@[m] == pre.rule_lists@[m]);
                    if pre.rule_lists@[m].parent == Some(parent) {
                        assert(pre.rules@[p].child_list == Some(RuleListId(m as u32)));
                    }
                }
            }
            assert forall|r: int| 0 <= r < pre.rules@.len() implies {
                let rec = #[trigger] post.rules@[r];
                &&& (rec.child_list matches Some(c) ==> (c.0 as int) < nl + 1
                    && post.rule_lists@[c.0 as int].parent == Some(RuleId(r as u32)))
                &&& (rec.parent matches Some(q) ==> (q.0 as int) < r)
            } by {
                assert(pre.rules@[r].child_list matches Some(c) ==> (c.0 as int) < nl);
            }
        }
        assert(post.wf_blocks()) by {
            reveal(AstContext::wf_blocks);
            assert forall|b: int| 0 <= b < post.declaration_blocks@.len() implies {
                let c = #[trigger] post.chains@[b];
                let rec = post.declaration_blocks@[b];
                &&& c.len() == rec.declaration_count
                &&& rec.first_declaration == declaration_at(c, 0)
                &&& rec.last_declaration == declaration_at(c, c.len() - 1)
                &&& (rec.owner->Rule_0.0 as int) < pre.rules@.len()
                &&& post.rules@[rec.owner->Rule_0.0 as int].declaration_block == Some(DeclarationBlockId(b as u32))
                &&& rec.live == post.rules@[rec.owner->Rule_0.0 as int].live
                &&& (rec.effective_key.0 as int) < post.effective_keys@.len()
            } by {
                assert(pre.chains@[b] == post.chains@[b]);
            }
        }
        assert(post.wf_keys()) by {
            reveal(AstContext::wf_keys);
        }
        assert(post.wf());
    }
}

} // verus!

verus! {

impl<R, D> AstContext<R, D> {
    /// Interning holds each effective key once: two identities with equal
    /// keys are the same identity.
    pub proof fn lemma_keys_distinct(&self, a: int, b: int)
        requires
            self.wf(),
            0 <= a < self.key_count(),
            0 <= b < self.key_count(),
            self.spec_key(a) == self.spec_key(b),
        ensures
            a == b,
    {
        reveal(AstContext::wf_keys);
    }

    /// Whether `key` is already interned.
    pub open spec fn holds_key(&self, key: EffectiveKeyData) -> bool {
        exists|k: int| 0 <= k < self.key_count() && #[trigger] self.spec_key(k) == key
    }

    /// Interns `key`: returns the identity of an equal key already stored,
    /// or stores `key` under the next identity.
    pub fn append_effective_key(&mut self, key: EffectiveKeyData) -> (r: Result<EffectiveKeyId, MutationError>)
        requires
            old(self).wf(),
        ensures
            final(self).wf(),
            old(self).holds_key(key) ==> *final(self) == *old(self) && (r matches Ok(id)
                && (id.0 as int) < old(self).key_count() && old(self).spec_key(id.0 as int) == key),
            !old(self).holds_key(key) && old(self).key_count() >= DENSE_CAPACITY ==>
                r == Err::<EffectiveKeyId, MutationError>(MutationError::EffectiveKeyCapacityExhausted)
                && *final(self) == *old(self),
            !old(self).holds_key(key) && old(self).key_count() < DENSE_CAPACITY ==> {
                &&& r == Ok::<EffectiveKeyId, MutationError>(EffectiveKeyId(old(self).key_count() as u32))
                &&& final(self).key_count() == old(self).key_count() + 1
                &&& final(self).spec_key(old(self).key_count() as int) == key
                &&& forall|k: int| 0 <= k < old(self).key_count() ==> #[trigger] final(self).spec_key(k) == old(self).spec_key(k)
                &&& same_rule_side(final(self), old(self))
                &&& same_blocks_except(final(self), old(self), -1)
                &&& final(self).declaration_count() == old(self).declaration_count()
                &&& forall|d: int| 0 <= d < old(self).declaration_count() ==>
                    #[trigger] final(self).spec_declaration(d) == old(self).spec_declaration(d)
            },
    {
        proof {
            reveal(AstContext::wf_keys);
            reveal(AstContext::wf_sizes);
        }
        let code = key.code();
        match fx_table_get(&self.effective_key_ids, code) {
            Some(id) => {
                proof {
                    EffectiveKeyData::lemma_code_injective(self.effective_keys@[id as int], key);
                }
                return Ok(EffectiveKeyId(id));
            },
            None => {},
        }
        proof {
            assert forall|k: int| 0 <= k < self.effective_keys@.len() implies #[trigger] self.effective_keys@[k] != key by {}
        }
        if self.effective_keys.len() >= DENSE_CAPACITY {
            return Err(MutationError::EffectiveKeyCapacityExhausted);
        }
        let ghost pre = *self;
        let id = self.effective_keys.len() as u32;
        self.effective_keys.push(key);
        fx_table_insert(&mut self.effective_key_ids, code, id);
        proof {
            Self::lemma_frame_source(pre, *self);
            Self::lemma_frame_lists(pre, *self);
            Self::lemma_frame_tree(pre, *self);
            assert(self.wf_sizes()) by {
                reveal(AstContext::wf_sizes);
            }
            assert(self.wf_blocks()) by {
                reveal(AstContext::wf_blocks);
                assert forall|b: int| 0 <= b < self.declaration_blocks@.len() implies
                    (#[trigger] self.declaration_blocks@[b].effective_key.0 as int) < self.effective_keys@.len() by {
                    assert(pre.chains@[b] == self.chains@[b]);
                }
            }
            let table = fx_table_contents(self.effective_key_ids);
            assert forall|k: int| 0 <= k < self.effective_keys@.len() implies table.dom().contains((#[trigger] self.effective_keys@[k]).spec_code())
                && table[self.effective_keys@[k].spec_code()] == k by {
                if k < pre.effective_keys@.len() {
                    assert(self.effective_keys@[k] == pre.effective_keys@[k]);
                }
            }
            assert(self.chains@.len() == self.declaration_blocks@.len()) by {
                reveal(AstContext::wf_blocks);
            }
            assert(self.lists@.len() == self.rule_lists@.len()) by {
                reveal(AstContext::wf_lists);
            }
        }
        Ok(EffectiveKeyId(id))
    }
}

} // verus!

verus! {

/// `rec` owning the declaration block `block`.
pub open spec fn with_declaration_block<R>(rec: RuleRecord<R>, block: Option<DeclarationBlockId>) -> RuleRecord<R> {
    RuleRecord { declaration_block: block, ..rec }
}

impl<R, D> AstContext<R, D> {
    /// What binding a new declaration block to `owner` returns.
    pub open spec fn spec_insert_block_result(old: &Self, owner: RuleId, effective_key: EffectiveKeyId) -> Result<DeclarationBlockId, MutationError> {
        if owner.0 >= old.rule_count() {
            Err(MutationError::UnknownRule(owner))
        } else if !old.spec_rule(owner.0 as int).live {
            Err(MutationError::RetiredRule(owner))
        } else if old.spec_rule(owner.0 as int).declaration_block is Some {
            Err(MutationError::DeclarationBlockAlreadyExists(owner))
        } else if effective_key.0 >= old.key_count() {
            Err(MutationError::UnknownEffectiveKey(effective_key))
        } else if old.block_count() >= DENSE_CAPACITY {
            Err(MutationError::DeclarationBlockCapacityExhausted)
        } else {
            Ok(DeclarationBlockId(old.block_count() as u32))
        }
    }

    /// `self` is `old` with one new empty live block owned by `owner`.
    pub open spec fn is_block_insertion_of(&self, old: &Self, owner: RuleId, effective_key: EffectiveKeyId) -> bool {
        let nb = old.block_count();
        let o = owner.0 as int;
        &&& self.block_count() == nb + 1
        &&& forall|x: int| 0 <= x < nb ==> #[trigger] self.spec_block(x) == old.spec_block(x)
        &&& forall|x: int| 0 <= x < nb ==> #[trigger] self.chain(x) == old.chain(x)
        &&& self.spec_block(nb as int) == (DeclarationBlockRecord {
            first_declaration: None,
            last_declaration: None,
            declaration_count: 0,
            owner: DeclarationBlockOwner::Rule(owner),
            effective_key,
            revision: 0,
            live: true,
        })
        &&& self.chain(nb as int) == Seq::<u32>::empty()
        &&& self.rule_count() == old.rule_count()
        &&& self.spec_rule(o) == with_declaration_block(old.spec_rule(o), Some(DeclarationBlockId(nb as u32)))
        &&& forall|x: int| 0 <= x < old.rule_count() && x != o ==> #[trigger] self.spec_rule(x) == old.spec_rule(x)
        &&& forall|x: int| 0 <= x < old.rule_count() ==> #[trigger] self.spec_rule_span(x) == old.spec_rule_span(x)
        &&& self.source_seq() == old.source_seq()
        &&& same_lists_except(self, old, -1)
        &&& self.declaration_count() == old.declaration_count()
        &&& forall|d: int| 0 <= d < old.declaration_count() ==> #[trigger] self.spec_declaration(d) == old.spec_declaration(d)
        &&& self.key_count() == old.key_count()
        &&& forall|k: int| 0 <= k < old.key_count() ==> #[trigger] self.spec_key(k) == old.spec_key(k)
        &&& self.spec_stylesheet() == old.spec_stylesheet()
        &&& self.spec_license_comments() == old.spec_license_comments()
    }

    /// Appends one authored declaration block and binds it to its unique owner.
    pub fn append_declaration_block(
        &mut self,
        owner: DeclarationBlockOwner,
        effective_key: EffectiveKeyId,
    ) -> (r: Result<DeclarationBlockId, MutationError>)
        requires
            old(self).wf(),
        ensures
            final(self).wf(),
            r == Self::spec_insert_block_result(old(self), owner->Rule_0, effective_key),
            r is Ok ==> final(self).is_block_insertion_of(old(self), owner->Rule_0, effective_key),
            r is Err ==> *final(self) == *old(self),
    {
        let DeclarationBlockOwner::Rule(owner_rule) = owner;
        self.insert_declaration_block(owner_rule, effective_key)
    }

    /// Inserts a declaration block at the next block identity and binds it
    /// to an already inserted live owner rule.
    pub fn insert_declaration_block(
        &mut self,
        owner: RuleId,
        effective_key: EffectiveKeyId,
    ) -> (r: Result<DeclarationBlockId, MutationError>)
        requires
            old(self).wf(),
        ensures
            final(self).wf(),
            r == Self::spec_insert_block_result(old(self), owner, effective_key),
            r is Ok ==> final(self).is_block_insertion_of(old(self), owner, effective_key),
            r is Err ==> *final(self) == *old(self),
    {
        let o = owner.0 as usize;
        if o >= self.rules.len() {
            return Err(MutationError::UnknownRule(owner));
        }
        if !self.rules[o].live {
            return Err(MutationError::RetiredRule(owner));
        }
        if self.rules[o].declaration_block.is_some() {
            return Err(MutationError::DeclarationBlockAlreadyExists(owner));
        }
        if (effective_key.0 as usize) >= self.effective_keys.len() {
            return Err(MutationError::UnknownEffectiveKey(effective_key));
        }
        if self.declaration_blocks.len() >= DENSE_CAPACITY {
            return Err(MutationError::DeclarationBlockCapacityExhausted);
        }
        let ghost pre = *self;
        let block = DeclarationBlockId(self.declaration_blocks.len() as u32);
        self.declaration_blocks.push(DeclarationBlockRecord {
            first_declaration: None,
            last_declaration: None,
            declaration_count: 0,
            owner: DeclarationBlockOwner::Rule(owner),
            effective_key,
            revision: 0,
            live: true,
        });
        self.rules[o].declaration_block = Some(block);
        proof {
            self.chains@ = self.chains@.push(Seq::<u32>::empty());
            Self::lemma_frame_source(pre, *self);
            Self::lemma_frame_lists(pre, *self);
            Self::lemma_frame_tree(pre, *self);
            Self::lemma_frame_keys(pre, *self);
            assert(self.wf_sizes()) by {
                reveal(AstContext::wf_sizes);
            }
            let nb = pre.declaration_blocks@.len();
            assert(pre.chains@.len() == nb && pre.lists@.len() == pre.rule_lists@.len()) by {
                reveal(AstContext::wf_blocks);
                reveal(AstContext::wf_lists);
            }
            assert(self.wf_blocks()) by {
                reveal(AstContext::wf_blocks);
                reveal(AstContext::wf_sizes);
                assert forall|b: int| 0 <= b < nb + 1 implies {
                    let c = #[trigger] self.chains@[b];
                    let rec = self.declaration_blocks@[b];
                    &&& c.len() == rec.declaration_count
                    &&& rec.first_declaration == declaration_at(c, 0)
                    &&& rec.last_declaration == declaration_at(c, c.len() - 1)
                    &&& (rec.owner->Rule_0.0 as int) < self.rules@.len()
                    &&& self.rules@[rec.owner->Rule_0.0 as int].declaration_block == Some(DeclarationBlockId(b as u32))
                    &&& rec.live == self.rules@[rec.owner->Rule_0.0 as int].live
                    &&& (rec.effective_key.0 as int) < self.effective_keys@.len()
                } by {
                    if b < nb {
                        assert(self.chains@[b] == pre.chains@[b]);
                        assert(self.declaration_blocks@[b] == pre.declaration_blocks@[b]);
                        assert(pre.declaration_blocks@[b].owner->Rule_0 != owner);
                    }
                }
                assert forall|b: int, i: int| 0 <= b < nb + 1 && 0 <= i < self.chains@[b].len() implies {
                    let d = #[trigger] self.chains@[b][i];
                    &&& d < self.declarations@.len()
                    &&& self.decl_owner@[d as int] == b
                    &&& self.decl_pos@[d as int] == i
                    &&& self.declarations@[d as int].next_in_block == declaration_at(self.chains@[b], i + 1)
                } by {
                    assert(self.chains@[b] == pre.chains@[b]);
                }
                assert forall|d: int| 0 <= d < self.declarations@.len() implies {
                    let b = #[trigger] self.decl_owner@[d];
                    &&& 0 <= b < nb + 1
                    &&& 0 <= self.decl_pos@[d] < self.chains@[b].len()
                    &&& self.chains@[b][self.decl_pos@[d]] == d
                } by {
                    assert(self.chains@[pre.decl_owner@[d]] == pre.chains@[pre.decl_owner@[d]]);
                }
            }
        }
        Ok(block)
    }
}

} // verus!

verus! {

/// `rec` with its successor in its chain replaced by `next`.
pub open spec fn with_next_in_block<D>(rec: DeclarationRecord<D>, next: Option<DeclarationId>) -> DeclarationRecord<D> {
    DeclarationRecord { next_in_block: next, ..rec }
}

impl<R, D> AstContext<R, D> {
    /// A chain never holds more declarations than the store.
    pub(super) proof fn lemma_chain_len_bounded(&self, b: int)
        requires
            self.wf(),
            0 <= b < self.declaration_blocks@.len(),
        ensures
            self.chains@[b].len() <= self.declarations@.len(),
            self.chains@[b].len() == self.declaration_blocks@[b].declaration_count,
    {
        reveal(AstContext::wf_blocks);
        let s = self.chains@[b];
        assert forall|i: int, j: int| 0 <= i < j < s.len() implies s[i] != s[j] by {
            assert(self.decl_pos@[s[i] as int] == i);
            assert(self.decl_pos@[s[j] as int] == j);
        }
        lemma_distinct_below_len(s, self.declarations@.len() as int);
    }

    /// What appending a declaration to `block` returns; `authored` appends
    /// also require the block's last declaration to be the store's last.
    pub open spec fn spec_append_declaration_result(old: &Self, block: DeclarationBlockId, authored: bool) -> Result<DeclarationId, MutationError> {
        let b = block.0 as int;
        if block.0 >= old.block_count() {
            Err(MutationError::UnknownDeclarationBlock(block))
        } else if !old.spec_block(b).live {
            Err(MutationError::UnknownDeclarationBlock(block))
        } else if authored && (old.spec_block(b).last_declaration matches Some(last)
            && last.0 + 1 != old.declaration_count()) {
            Err(MutationError::NonContiguousDeclarationRange(block))
        } else if old.declaration_count() >= DENSE_CAPACITY {
            Err(MutationError::DeclarationCapacityExhausted)
        } else {
            Ok(DeclarationId(old.declaration_count() as u32))
        }
    }

    /// `self` is `old` with one new declaration at the end of `block`'s chain.
    pub open spec fn is_declaration_append_of(&self, old: &Self, block: DeclarationBlockId, payload: D, important: bool) -> bool {
        let b = block.0 as int;
        let nd = old.declaration_count();
        let id = DeclarationId(nd as u32);
        let ob = old.spec_block(b);
        &&& self.declaration_count() == nd + 1
        &&& self.spec_declaration(nd as int) == (DeclarationRecord { payload, next_in_block: None, important })
        &&& forall|d: int| 0 <= d < nd ==> #[trigger] self.spec_declaration(d) == (if ob.last_declaration == Some(DeclarationId(d as u32)) {
            with_next_in_block(old.spec_declaration(d), Some(id))
        } else {
            old.spec_declaration(d)
        })
        &&& self.chain(b) == old.chain(b).push(nd as u32)
        &&& self.chain_payloads(b) == old.chain_payloads(b).push(payload)
        &&& self.spec_block(b) == (DeclarationBlockRecord {
            first_declaration: if ob.first_declaration is None { Some(id) } else { ob.first_declaration },
            last_declaration: Some(id),
            declaration_count: (ob.declaration_count + 1) as u32,
            revision: wrapping_inc(ob.revision),
            ..ob
        })
        &&& same_blocks_except(self, old, b)
        &&& forall|x: int| 0 <= x < old.block_count() && x != b ==> #[trigger] self.chain_payloads(x) == old.chain_payloads(x)
        &&& self.key_count() == old.key_count()
        &&& forall|k: int| 0 <= k < old.key_count() ==> #[trigger] self.spec_key(k) == old.spec_key(k)
        &&& same_rule_side(self, old)
    }

    /// Appends one declaration to the end of a live block's chain, after the
    /// caller's checks.
    fn push_declaration(&mut self, block: DeclarationBlockId, payload: D, important: bool) -> (r: DeclarationId)
        requires
            old(self).wf(),
            (block.0 as int) < old(self).block_count(),
            old(self).spec_block(block.0 as int).live,
            old(self).declaration_count() < DENSE_CAPACITY,
        ensures
            final(self).wf(),
            r == DeclarationId(old(self).declaration_count() as u32),
            final(self).is_declaration_append_of(old(self), block, payload, important),
    {
        let b = block.0 as usize;
        let ghost pre = *self;
        proof {
            self.lemma_chain_len_bounded(b as int);
            reveal(AstContext::wf_blocks);
        }
        let last = self.declaration_blocks[b].last_declaration;
        let id = DeclarationId(self.declarations.len() as u32);
        let ghost nd = self.declarations@.len();
        let ghost c = self.chains@[b as int];
        proof {
            if c.len() > 0 {
                assert(c[c.len() - 1] < nd);
            }
        }
        self.declarations.push(DeclarationRecord { payload, next_in_block: None, important });
        let mut record = self.declaration_blocks[b];
        match last {
            Some(last) => {
                self.declarations[last.0 as usize].next_in_block = Some(id);
            },
            None => {
                record.first_declaration = Some(id);
            },
        }
        record.last_declaration = Some(id);
        record.declaration_count = record.declaration_count + 1;
        record.revision = record.revision.wrapping_add(1);
        self.declaration_blocks.set(b, record);
        proof {
            self.chains@ = self.chains@.update(b as int, c.push(nd as u32));
            self.decl_owner@ = self.decl_owner@.push(b as int);
            self.decl_pos@ = self.decl_pos@.push(c.len() as int);
            Self::lemma_declaration_append_step(pre, *self, block, payload, important);
        }
        id
    }

    /// A declaration append step keeps the context well formed.
    proof fn lemma_declaration_append_step(pre: Self, post: Self, block: DeclarationBlockId, payload: D, important: bool)
        requires
            pre.wf(),
            (block.0 as int) < pre.declaration_blocks@.len(),
            pre.declaration_blocks@[block.0 as int].live,
            pre.declarations@.len() < DENSE_CAPACITY,
            ({
                let b = block.0 as int;
                let nd = pre.declarations@.len();
                let id = DeclarationId(nd as u32);
                let ob = pre.declaration_blocks@[b];
                let c = pre.chains@[b];
                let step1 = pre.declarations@.push(DeclarationRecord { payload, next_in_block: None, important });
                &&& post.declarations@ == (match ob.last_declaration {
                    Some(l) => step1.update(l.0 as int, with_next_in_block(step1[l.0 as int], Some(id))),
                    None => step1,
                })
                &&& post.declaration_blocks@ == pre.declaration_blocks@.update(b, DeclarationBlockRecord {
                    first_declaration: if ob.first_declaration is None { Some(id) } else { ob.first_declaration },
                    last_declaration: Some(id),
                    declaration_count: (ob.declaration_count + 1) as u32,
                    revision: wrapping_inc(ob.revision),
                    ..ob
                })
                &&& post.chains@ == pre.chains@.update(b, c.push(nd as u32))
                &&& post.decl_owner@ == pre.decl_owner@.push(b)
                &&& post.decl_pos@ == pre.decl_pos@.push(c.len() as int)
            }),
            post.rules@ == pre.rules@,
            post.rule_spans@ == pre.rule_spans@,
            post.rule_lists@ == pre.rule_lists@,
            post.effective_keys@ == pre.effective_keys@,
            post.effective_key_ids == pre.effective_key_ids,
            post.stylesheet == pre.stylesheet,
            post.license_comments@ == pre.license_comments@,
            post.first_rule_in_source == pre.first_rule_in_source,
            post.last_rule_in_source == pre.last_rule_in_source,
            post.source@ == pre.source@,
            post.source_pos@ == pre.source_pos@,
            post.lists@ == pre.lists@,
            post.list_pos@ == pre.list_pos@,
        ensures
            post.wf(),
            post.is_declaration_append_of(&pre, block, payload, important),
    {
        let b = block.0 as int;
        let nb = pre.declaration_blocks@.len();
        let nd = pre.declarations@.len();
        let id = DeclarationId(nd as u32);
        let ob = pre.declaration_blocks@[b];
        let c = pre.chains@[b];
        pre.lemma_chain_len_bounded(b);
        assert(pre.chains@.len() == nb && pre.decl_owner@.len() == nd && pre.decl_pos@.len() == nd
            && ob.first_declaration == declaration_at(c, 0) && ob.last_declaration == declaration_at(c, c.len() - 1)) by {
            reveal(AstContext::wf_blocks);
        }
        assert(pre.lists@.len() == pre.rule_lists@.len()) by {
            reveal(AstContext::wf_lists);
        }
        if c.len() > 0 {
            assert(c[c.len() - 1] < nd) by {
                reveal(AstContext::wf_blocks);
            }
        }
        // Every old declaration keeps its payload and importance; only the old
        // tail of `block` gains a successor.
        assert forall|d: int| 0 <= d < nd implies {
            &&& (#[trigger] post.declarations@[d]).payload == pre.declarations@[d].payload
            &&& post.declarations@[d].important == pre.declarations@[d].important
            &&& post.declarations@[d].next_in_block == (if ob.last_declaration == Some(DeclarationId(d as u32)) {
                Some(id)
            } else {
                pre.declarations@[d].next_in_block
            })
        } by {}
        Self::lemma_frame_source(pre, post);
        Self::lemma_frame_lists(pre, post);
        Self::lemma_frame_tree(pre, post);
        Self::lemma_frame_keys(pre, post);
        assert(post.wf_sizes()) by {
            reveal(AstContext::wf_sizes);
        }
        assert(post.wf_blocks()) by {
            reveal(AstContext::wf_blocks);
            reveal(AstContext::wf_sizes);
            assert forall|x: int| 0 <= x < nb implies {
                let cc = #[trigger] post.chains@[x];
                let rec = post.declaration_blocks@[x];
                &&& cc.len() == rec.declaration_count
                &&& rec.first_declaration == declaration_at(cc, 0)
                &&& rec.last_declaration == declaration_at(cc, cc.len() - 1)
                &&& (rec.owner->Rule_0.0 as int) < post.rules@.len()
                &&& post.rules@[rec.owner->Rule_0.0 as int].declaration_block == Some(DeclarationBlockId(x as u32))
                &&& rec.live == post.rules@[rec.owner->Rule_0.0 as int].live
                &&& (rec.effective_key.0 as int) < post.effective_keys@.len()
            } by {
                if x == b {
                    if c.len() > 0 {
                        assert(post.chains@[x][0] == c[0]);
                    }
                } else {
                    assert(post.chains@[x] == pre.chains@[x]);
                    assert(post.declaration_blocks@[x] == pre.declaration_blocks@[x]);
                }
            }
            assert forall|x: int, i: int| 0 <= x < nb && 0 <= i < post.chains@[x].len() implies {
                let d = #[trigger] post.chains@[x][i];
                &&& d < post.declarations@.len()
                &&& post.decl_owner@[d as int] == x
                &&& post.decl_pos@[d as int] == i
                &&& post.declarations@[d as int].next_in_block == declaration_at(post.chains@[x], i + 1)
            } by {
                if x == b {
                    if i < c.len() {
                        assert(post.chains@[x][i] == c[i]);
                        assert(c[i] < nd);
                        if i + 1 < c.len() {
                            assert(post.chains@[x][i + 1] == c[i + 1]);
                            assert(ob.last_declaration != Some(DeclarationId(c[i])));
                        }
                    }
                } else {
                    let d = pre.chains@[x][i];
                    assert(post.chains@[x] == pre.chains@[x]);
                    assert(d < nd);
                    if ob.last_declaration == Some(DeclarationId(d)) {
                        assert(pre.decl_owner@[d as int] == b);
                        assert(false);
                    }
                }
            }
            assert forall|d: int| 0 <= d < nd + 1 implies {
                let x = #[trigger] post.decl_owner@[d];
                &&& 0 <= x < nb
                &&& 0 <= post.decl_pos@[d] < post.chains@[x].len()
                &&& post.chains@[x][post.decl_pos@[d]] == d
            } by {
                if d < nd {
                    let x = pre.decl_owner@[d];
                    assert(0 <= x < nb);
                    if x == b {
                        assert(post.chains@[x][post.decl_pos@[d]] == c[pre.decl_pos@[d]]);
                    } else {
                        assert(post.chains@[x] == pre.chains@[x]);
                    }
                }
            }
        }
        assert(post.chain_payloads(b) =~= pre.chain_payloads(b).push(payload)) by {
            reveal(AstContext::wf_blocks);
            assert forall|i: int| 0 <= i < c.len() implies c[i] < nd by {}
        }
        assert forall|x: int| 0 <= x < nb && x != b implies #[trigger] post.chain_payloads(x) == pre.chain_payloads(x) by {
            assert(post.chains@[x] == pre.chains@[x]);
            assert forall|i: int| 0 <= i < pre.chains@[x].len() implies pre.chains@[x][i] < nd by {
                reveal(AstContext::wf_blocks);
            }
            assert(post.chain_payloads(x) =~= pre.chain_payloads(x));
        }
    }
}

} // verus!

verus! {

impl<R, D> AstContext<R, D> {
    /// Appends one authored declaration to the end of `block`.
    ///
    /// Once another declaration has been stored after a nonempty authored
    /// block, that block's append frontier is closed: the parser must start
    /// a distinct nested block first. An empty block has no frontier.
    pub fn append_declaration(&mut self, block: DeclarationBlockId, payload: D, important: bool) -> (r: Result<DeclarationId, MutationError>)
        requires
            old(self).wf(),
        ensures
            final(self).wf(),
            r == Self::spec_append_declaration_result(old(self), block, true),
            r is Ok ==> final(self).is_declaration_append_of(old(self), block, payload, important),
            r is Err ==> *final(self) == *old(self),
    {
        let b = block.0 as usize;
        if b >= self.declaration_blocks.len() {
            return Err(MutationError::UnknownDeclarationBlock(block));
        }
        let record = self.declaration_blocks[b];
        if !record.live {
            return Err(MutationError::UnknownDeclarationBlock(block));
        }
        proof {
            reveal(AstContext::wf_blocks);
            reveal(AstContext::wf_sizes);
            let c = self.chains@[b as int];
            assert(c.len() == record.declaration_count);
            if c.len() > 0 {
                assert(c[c.len() - 1] < self.declarations@.len());
                assert(self.declarations@[c[c.len() - 1] as int].next_in_block is None);
            }
        }
        if record.first_declaration.is_none() != record.last_declaration.is_none()
            || record.first_declaration.is_none() != (record.declaration_count == 0) {
            return Err(MutationError::InvalidDeclarationChain(block));
        }
        if let Some(last) = record.last_declaration {
            proof {
                let c = self.chains@[b as int];
                assert(c[c.len() - 1] < self.declarations@.len());
            }
            if self.declarations[last.0 as usize].next_in_block.is_some() {
                return Err(MutationError::InvalidDeclarationChain(block));
            }
            if last.0 as usize + 1 != self.declarations.len() {
                return Err(MutationError::NonContiguousDeclarationRange(block));
            }
        }
        if self.declarations.len() >= DENSE_CAPACITY {
            return Err(MutationError::DeclarationCapacityExhausted);
        }
        Ok(self.push_declaration(block, payload, important))
    }

    /// Appends a transformed declaration to the end of any live block.
    ///
    /// Unlike [`Self::append_declaration`], synthesized declarations ignore
    /// allocation adjacency.
    pub fn append_transformed_declaration(&mut self, block: DeclarationBlockId, payload: D, important: bool) -> (r: Result<DeclarationId, MutationError>)
        requires
            old(self).wf(),
        ensures
            final(self).wf(),
            r == Self::spec_append_declaration_result(old(self), block, false),
            r is Ok ==> final(self).is_declaration_append_of(old(self), block, payload, important),
            r is Err ==> *final(self) == *old(self),
    {
        let b = block.0 as usize;
        if b >= self.declaration_blocks.len() {
            return Err(MutationError::UnknownDeclarationBlock(block));
        }
        let record = self.declaration_blocks[b];
        if !record.live {
            return Err(MutationError::UnknownDeclarationBlock(block));
        }
        proof {
            reveal(AstContext::wf_blocks);
            reveal(AstContext::wf_sizes);
            let c = self.chains@[b as int];
            assert(c.len() == record.declaration_count);
            if c.len() > 0 {
                assert(c[c.len() - 1] < self.declarations@.len());
                assert(self.declarations@[c[c.len() - 1] as int].next_in_block is None);
            }
        }
        if record.first_declaration.is_none() != record.last_declaration.is_none()
            || record.first_declaration.is_none() != (record.declaration_count == 0) {
            return Err(MutationError::InvalidDeclarationChain(block));
        }
        if let Some(last) = record.last_declaration {
            proof {
                let c = self.chains@[b as int];
                assert(c[c.len() - 1] < self.declarations@.len());
            }
            if self.declarations[last.0 as usize].next_in_block.is_some() {
                return Err(MutationError::InvalidDeclarationChain(block));
            }
        }
        if self.declarations.len() >= DENSE_CAPACITY {
            return Err(MutationError::DeclarationCapacityExhausted);
        }
        Ok(self.push_declaration(block, payload, important))
    }
}

} // verus!
