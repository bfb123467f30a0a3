//! Source-order labels of the rule chain: choosing a label between two
//! neighbours and relabelling the whole chain when a gap is exhausted.

use super::{rule_at, with_label, AstContext};
use crate::records::{MutationError, DENSE_CAPACITY};
use crate::ids::{RuleId, SourceOrderId};
use crate::source_order::{
    label_between, lemma_label_between_is_between, lemma_relabel_step_wide, lemma_relabeled_bounds,
    lemma_relabeled_room,
    spec_label_between, spec_relabel_step, spec_relabeled,
};
use vstd::prelude::*;

verus! {

impl<R, D> AstContext<R, D> {
    /// Relabels every rule by its source position, spreading the labels
    /// evenly over the `u64` range.
    pub(super) fn relabel_source_order_ids(&mut self) -> (r: Result<(), MutationError>)
        requires
            old(self).wf(),
        ensures
            r is Ok,
            final(self).wf(),
            final(self).is_relabeling_of(old(self)),
    {
        proof {
            reveal(AstContext::wf_sizes);
            reveal(AstContext::wf_source);
            reveal(AstContext::wf_lists);
            reveal(AstContext::wf_tree);
            reveal(AstContext::wf_blocks);
            reveal(AstContext::wf_keys);
        }
        let ghost pre = self.rules@;
        let ghost n = self.rules@.len();
        let count = self.rules.len();
        let step = u64::MAX / (count as u64 + 1);
        assert(step == spec_relabel_step(n));
        let mut current = self.first_rule_in_source;
        let mut ordinal: u64 = 1;
        loop
            invariant
                old(self).wf(),
                n == old(self).rules@.len(),
                pre == old(self).rules@,
                step == spec_relabel_step(n),
                1 <= ordinal <= n + 1,
                current == rule_at(self.source@, ordinal - 1),
                self.rules@.len() == n,
                self.stylesheet == old(self).stylesheet,
                self.license_comments@ == old(self).license_comments@,
                self.rule_spans@ == old(self).rule_spans@,
                self.rule_lists@ == old(self).rule_lists@,
                self.declaration_blocks@ == old(self).declaration_blocks@,
                self.declarations@ == old(self).declarations@,
                self.effective_keys@ == old(self).effective_keys@,
                self.effective_key_ids == old(self).effective_key_ids,
                self.first_rule_in_source == old(self).first_rule_in_source,
                self.last_rule_in_source == old(self).last_rule_in_source,
                self.source == old(self).source,
                self.source_pos == old(self).source_pos,
                self.lists == old(self).lists,
                self.list_pos == old(self).list_pos,
                self.chains == old(self).chains,
                self.decl_owner == old(self).decl_owner,
                self.decl_pos == old(self).decl_pos,
                forall|r: int| 0 <= r < n ==>
                    (#[trigger] self.rules@[r]) == with_label(pre[r], self.rules@[r].source_order_id.0),
                forall|r: int| 0 <= r < n ==> (self.source_pos@[r] < ordinal - 1 ==>
                    (#[trigger] self.rules@[r]).source_order_id.0 == spec_relabeled(n, self.source_pos@[r])),
                forall|r: int| 0 <= r < n ==> (self.source_pos@[r] >= ordinal - 1 ==>
                    (#[trigger] self.rules@[r]).source_order_id.0 == pre[r].source_order_id.0),
            ensures
                ordinal - 1 == n,
            decreases n + 1 - ordinal,
        {
            match current {
                None => {
                    proof {
                        reveal(AstContext::wf_source);
                    }
                    break;
                },
                Some(id) => {
                    let ghost k = ordinal - 1;
                    proof {
                        reveal(AstContext::wf_source);
                        reveal(AstContext::wf_sizes);
                        assert(self.source@[k] == id.0);
                        assert((id.0 as int) < n);
                        assert(pre[id.0 as int].next_in_source == rule_at(self.source@, k + 1));
                        if k > 0 {
                            lemma_relabeled_bounds(n, k - 1, k);
                        } else if n > 1 {
                            lemma_relabeled_bounds(n, k, k + 1);
                        } else {
                            assert(step * 1 <= u64::MAX) by (nonlinear_arith)
                                requires step == u64::MAX as int / (n + 1) as int, n == 1;
                        }
                    }
                    let next = self.rules[id.0 as usize].next_in_source;
                    let label = step * ordinal;
                    self.rules[id.0 as usize].source_order_id = SourceOrderId(label);
                    ordinal = ordinal + 1;
                    current = next;
                },
            }
        }
        if ordinal - 1 != count as u64 {
            return Err(MutationError::InvalidSourceTopology);
        }
        proof {
            assert forall|i: int, j: int| 0 <= i < j < n implies
                (#[trigger] self.rules@[self.source@[i] as int]).source_order_id.0
                    < (#[trigger] self.rules@[self.source@[j] as int]).source_order_id.0 by {
                lemma_relabeled_bounds(n, i, j);
            }
        }
        Ok(())
    }
}


impl<R, D> AstContext<R, D> {
    /// Adjacent source neighbours exist and their labels are ordered, so a
    /// label chosen between them lies strictly between them.
    proof fn lemma_neighbours_ordered(&self, previous: Option<RuleId>, next: Option<RuleId>, k: int)
        requires
            self.wf(),
            0 <= k <= self.rules@.len(),
            previous == rule_at(self.source@, k - 1),
            next == rule_at(self.source@, k),
        ensures
            previous matches Some(p) ==> p.0 < self.rules@.len(),
            next matches Some(q) ==> q.0 < self.rules@.len(),
            !(spec_label_between(self.label_of(previous), self.label_of(next)) is Err),
            spec_label_between(self.label_of(previous), self.label_of(next)) matches Ok(Some(v)) ==> {
                &&& (previous matches Some(p) ==> self.rules@[p.0 as int].source_order_id.0 < v)
                &&& (next matches Some(q) ==> v < self.rules@[q.0 as int].source_order_id.0)
            },
    {
        reveal(AstContext::wf_source);
        if previous is Some {
            assert(self.source@[k - 1] < self.rules@.len());
        }
        if next is Some {
            assert(self.source@[k] < self.rules@.len());
        }
        if previous is Some && next is Some {
            assert(self.rules@[self.source@[k - 1] as int].source_order_id.0
                < self.rules@[self.source@[k] as int].source_order_id.0);
        }
        lemma_label_between_is_between(self.label_of(previous), self.label_of(next));
    }

    /// After a relabelling of fewer than `u32::MAX` rules, adjacent source
    /// neighbours always leave a free label between them.
    proof fn lemma_relabeled_neighbours_have_room(&self, previous: Option<RuleId>, next: Option<RuleId>, k: int)
        requires
            self.wf(),
            self.rules@.len() <= 0xffff_fffe,
            0 <= k <= self.rules@.len(),
            previous == rule_at(self.source@, k - 1),
            next == rule_at(self.source@, k),
            forall|r: int| 0 <= r < self.rules@.len() ==>
                (#[trigger] self.rules@[r]).source_order_id.0 == spec_relabeled(self.rules@.len(), self.source_pos@[r]),
        ensures
            spec_label_between(self.label_of(previous), self.label_of(next)) is Ok,
            spec_label_between(self.label_of(previous), self.label_of(next))->Ok_0 is Some,
    {
        reveal(AstContext::wf_source);
        let n = self.rules@.len();
        lemma_relabel_step_wide(n);
        if previous is Some {
            let p = self.source@[k - 1] as int;
            assert(self.source_pos@[p] == k - 1);
            assert(self.rules@[p].source_order_id.0 == spec_relabeled(n, k - 1));
            lemma_relabeled_room(n, k - 1);
            if next is Some {
                let q = self.source@[k] as int;
                assert(self.source_pos@[q] == k);
                assert(self.rules@[q].source_order_id.0 == spec_relabeled(n, k));
                lemma_relabeled_bounds(n, k - 1, k);
                assert(spec_relabeled(n, k) == spec_relabeled(n, k - 1) + spec_relabel_step(n)) by (nonlinear_arith)
                    requires spec_relabeled(n, k) == spec_relabel_step(n) * (k + 1),
                        spec_relabeled(n, k - 1) == spec_relabel_step(n) * k;
            }
        } else if next is Some {
            let q = self.source@[k] as int;
            assert(self.source_pos@[q] == k);
            assert(self.rules@[q].source_order_id.0 == spec_relabeled(n, k));
            assert(k == 0);
            assert(spec_relabeled(n, 0) == spec_relabel_step(n));
        }
    }

    /// Chooses a label between two rules from their current labels.
    ///
    /// `Ok(None)` means that no free label lies between them.
    fn source_order_id_between_without_relabel(
        &self,
        previous: Option<RuleId>,
        next: Option<RuleId>,
    ) -> (r: Result<Option<SourceOrderId>, MutationError>)
        ensures
            r == (if previous matches Some(p) && p.0 >= self.rules@.len() {
                Err(MutationError::InvalidRuleTopology(previous->0))
            } else if next matches Some(q) && q.0 >= self.rules@.len() {
                Err(MutationError::InvalidRuleTopology(next->0))
            } else {
                match spec_label_between(self.label_of(previous), self.label_of(next)) {
                    Ok(Some(v)) => Ok(Some(SourceOrderId(v))),
                    Ok(None) => Ok(None),
                    Err(_) => Err(MutationError::InvalidRuleTopology(previous->0)),
                }
            }),
    {
        let previous_order = match previous {
            Some(id) => {
                if (id.0 as usize) < self.rules.len() {
                    Some(self.rules[id.0 as usize].source_order_id.0)
                } else {
                    return Err(MutationError::InvalidRuleTopology(id));
                }
            },
            None => None,
        };
        let next_order = match next {
            Some(id) => {
                if (id.0 as usize) < self.rules.len() {
                    Some(self.rules[id.0 as usize].source_order_id.0)
                } else {
                    return Err(MutationError::InvalidRuleTopology(id));
                }
            },
            None => None,
        };
        match label_between(previous_order, next_order) {
            Ok(Some(v)) => Ok(Some(SourceOrderId(v))),
            Ok(None) => Ok(None),
            Err(()) => {
                let id = match previous {
                    Some(id) => id,
                    None => {
                        proof {
                            assert(false);
                        }
                        return Err(MutationError::InvalidSourceTopology);
                    },
                };
                Err(MutationError::InvalidRuleTopology(id))
            },
        }
    }

    /// Chooses the label of a rule inserted at source position `k`, between
    /// the rules at positions `k - 1` and `k`, relabelling every rule first
    /// when their current labels leave no gap.
    pub(super) fn source_order_id_between(
        &mut self,
        previous: Option<RuleId>,
        next: Option<RuleId>,
        Ghost(k): Ghost<int>,
    ) -> (r: Result<SourceOrderId, MutationError>)
        requires
            old(self).wf(),
            old(self).rules@.len() < DENSE_CAPACITY,
            0 <= k <= old(self).rules@.len(),
            previous == rule_at(old(self).source@, k - 1),
            next == rule_at(old(self).source@, k),
        ensures
            final(self).wf(),
            final(self).same_except_labels(old(self)),
            final(self).rules@ == old(self).rules@ || final(self).is_relabeling_of(old(self)),
            r is Ok,
            previous matches Some(p) ==> final(self).rules@[p.0 as int].source_order_id.0 < r->Ok_0.0,
            next matches Some(q) ==> r->Ok_0.0 < final(self).rules@[q.0 as int].source_order_id.0,
    {
        let ghost n = self.rules@.len();
        proof {
            self.lemma_neighbours_ordered(previous, next, k);
        }
        match self.source_order_id_between_without_relabel(previous, next) {
            Err(e) => {
                return Err(e);
            },
            Ok(Some(id)) => {
                return Ok(id);
            },
            Ok(None) => {},
        }
        let relabeled = self.relabel_source_order_ids();
        if let Err(e) = relabeled {
            return Err(e);
        }
        proof {
            self.lemma_relabeled_neighbours_have_room(previous, next, k);
        }
        match self.source_order_id_between_without_relabel(previous, next) {
            Ok(Some(id)) => Ok(id),
            Err(e) => Err(e),
            Ok(None) => {
                let id = match previous {
                    Some(id) => id,
                    None => match next {
                        Some(id) => id,
                        None => {
                            return Err(MutationError::InvalidSourceTopology);
                        },
                    },
                };
                Err(MutationError::InvalidRuleTopology(id))
            },
        }
    }
}

} // verus!
