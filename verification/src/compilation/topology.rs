//! Subtree boundaries of the direct rule tree.

use super::AstContext;
use crate::ids::{RuleId, RuleListId};
use vstd::prelude::*;

verus! {

impl<R, D> AstContext<R, D> {
    /// Returns the final live rule in `rule`'s lexical subtree.
    ///
    /// Direct siblings are not necessarily adjacent in global source order
    /// because all descendants of the left sibling come first.
    pub fn subtree_tail(&self, rule: RuleId) -> (r: Option<RuleId>)
        requires
            self.wf(),
        ensures
            r == self.spec_subtree_tail(rule.0 as int),
            (rule.0 as int) < self.rule_count() && self.spec_rule(rule.0 as int).live
                ==> (r matches Some(t) && self.is_last_of_subtree(t.0 as int, rule.0 as int)),
            !((rule.0 as int) < self.rule_count() && self.spec_rule(rule.0 as int).live) ==> r is None,
    {
        proof {
            if (rule.0 as int) < self.rule_count() && self.spec_rule(rule.0 as int).live {
                self.lemma_subtree_tail_is_last(rule.0 as int);
            }
        }
        let mut current = rule;
        loop
            invariant
                self.wf(),
                self.spec_subtree_tail(current.0 as int) == self.spec_subtree_tail(rule.0 as int),
                (rule.0 as int) < self.rule_count() && self.spec_rule(rule.0 as int).live
                    ==> (self.spec_subtree_tail(rule.0 as int) matches Some(t)
                        && self.is_last_of_subtree(t.0 as int, rule.0 as int)),
                !((rule.0 as int) < self.rule_count() && self.spec_rule(rule.0 as int).live)
                    ==> self.spec_subtree_tail(rule.0 as int) is None,
            decreases self.rules@.len() - current.0,
        {
            let c = current.0 as usize;
            if c >= self.rules.len() || !self.rules[c].live {
                return None;
            }
            let children = match self.rules[c].child_list {
                None => {
                    return Some(current);
                },
                Some(children) => children,
            };
            if (children.0 as usize) >= self.rule_lists.len() {
                return None;
            }
            let last_child = match self.rule_lists[children.0 as usize].last {
                None => {
                    return Some(current);
                },
                Some(last_child) => last_child,
            };
            proof {
                self.lemma_last_child_after_parent(c as int);
            }
            current = last_child;
        }
    }

    /// Returns the first tree-preorder rule after `rule`'s whole subtree.
    ///
    /// This may be a direct sibling, an ancestor's sibling, or `None` at the
    /// end of the stylesheet.
    pub fn next_after_subtree(&self, rule: RuleId) -> (r: Option<RuleId>)
        requires
            self.wf(),
        ensures
            r == self.spec_next_after_subtree(rule.0 as int),
            (rule.0 as int) < self.rule_count() && self.spec_rule(rule.0 as int).live
                ==> self.is_next_after_subtree(rule.0 as int, r),
            !((rule.0 as int) < self.rule_count() && self.spec_rule(rule.0 as int).live) ==> r is None,
    {
        proof {
            if (rule.0 as int) < self.rule_count() && self.spec_rule(rule.0 as int).live {
                self.lemma_next_after_subtree_is_nearest(rule.0 as int);
            }
        }
        let mut current = rule;
        loop
            invariant
                self.wf(),
                self.spec_next_after_subtree(current.0 as int) == self.spec_next_after_subtree(rule.0 as int),
                (rule.0 as int) < self.rule_count() && self.spec_rule(rule.0 as int).live
                    ==> self.is_next_after_subtree(rule.0 as int, self.spec_next_after_subtree(rule.0 as int)),
                !((rule.0 as int) < self.rule_count() && self.spec_rule(rule.0 as int).live)
                    ==> self.spec_next_after_subtree(rule.0 as int) is None,
            decreases current.0,
        {
            let c = current.0 as usize;
            if c >= self.rules.len() || !self.rules[c].live {
                return None;
            }
            if let Some(next) = self.rules[c].next_sibling {
                return Some(next);
            }
            let parent = match self.rules[c].parent {
                None => {
                    return None;
                },
                Some(parent) => parent,
            };
            proof {
                reveal(AstContext::wf_tree);
                assert(self.rules@[c as int].parent == Some(parent));
            }
            current = parent;
        }
    }

    /// The last child of a live rule's child list comes after the rule.
    proof fn lemma_last_child_after_parent(&self, r: int)
        requires
            self.wf(),
            0 <= r < self.rules@.len(),
            self.rules@[r].live,
            self.rules@[r].child_list is Some,
        ensures
            ({
                let c = self.rules@[r].child_list.unwrap().0 as int;
                &&& c < self.rule_lists@.len()
                &&& (self.rule_lists@[c].last matches Some(x) ==> r < x.0 < self.rules@.len())
            }),
    {
        reveal(AstContext::wf_tree);
        reveal(AstContext::wf_lists);
        reveal(AstContext::wf_sizes);
        let c = self.rules@[r].child_list.unwrap().0 as int;
        let s = self.lists@[c];
        if s.len() > 0 {
            let x = s[s.len() - 1];
            assert(self.rules@[x as int].parent_list == RuleListId(c as u32));
            assert(self.rules@[x as int].parent == self.rule_lists@[c].parent);
        }
    }
}

} // verus!

verus! {

impl<R, D> AstContext<R, D> {
    /// A live rule's subtree tail is a live rule.
    pub(super) proof fn lemma_subtree_tail_valid(&self, r: int)
        requires
            self.wf(),
            0 <= r < self.rules@.len(),
            self.rules@[r].live,
        ensures
            self.spec_subtree_tail(r) matches Some(t) && (t.0 as int) < self.rules@.len() && self.rules@[t.0 as int].live,
        decreases self.rules@.len() - r,
    {
        reveal(AstContext::wf_sizes);
        if self.rules@[r].child_list is Some {
            self.lemma_last_child_after_parent(r);
            let c = self.rules@[r].child_list.unwrap().0 as int;
            if let Some(x) = self.rule_lists@[c].last {
                assert(self.rules@[x.0 as int].live) by {
                    reveal(AstContext::wf_lists);
                    let s = self.lists@[c];
                    assert(s[s.len() - 1] == x.0);
                }
                self.lemma_subtree_tail_valid(x.0 as int);
            }
        }
    }

    /// The rule after a subtree, when there is one, is a live rule.
    pub(super) proof fn lemma_next_after_subtree_valid(&self, r: int)
        requires
            self.wf(),
            0 <= r < self.rules@.len(),
        ensures
            self.spec_next_after_subtree(r) matches Some(b) ==> (b.0 as int) < self.rules@.len() && self.rules@[b.0 as int].live,
        decreases r,
    {
        if self.rules@[r].live {
            if let Some(s) = self.rules@[r].next_sibling {
                reveal(AstContext::wf_lists);
                let l = self.rules@[r].parent_list.0 as int;
                let i = self.list_pos@[r];
                assert(self.lists@[l][i] == r);
                assert(self.lists@[l][i + 1] < self.rules@.len());
            } else if let Some(p) = self.rules@[r].parent {
                reveal(AstContext::wf_tree);
                if 0 <= p.0 < r {
                    self.lemma_next_after_subtree_valid(p.0 as int);
                }
            }
        }
    }
}

} // verus!

verus! {

impl<R, D> AstContext<R, D> {
    /// The rule reached from `r` by climbing `k` parent links, if the chain
    /// of parents is that long.
    pub open spec fn nth_ancestor(&self, r: int, k: nat) -> Option<int>
        decreases k,
    {
        if k == 0 {
            Some(r)
        } else if 0 <= r < self.rule_count() {
            match self.spec_rule(r).parent {
                Some(p) => self.nth_ancestor(p.0 as int, (k - 1) as nat),
                None => None,
            }
        } else {
            None
        }
    }

    /// Rule `t` is the last rule of the subtree of rule `r`: a live rule with
    /// no live child, reached from `r` by descending, where every rule of the
    /// path below `r` is the last of its list.
    pub open spec fn is_last_of_subtree(&self, t: int, r: int) -> bool {
        &&& 0 <= t < self.rule_count()
        &&& self.spec_rule(t).live
        &&& (self.spec_rule(t).child_list matches Some(c) ==>
            (c.0 as int) < self.list_count() && self.spec_list(c.0 as int).live_len == 0)
        &&& exists|k: nat| {
            &&& #[trigger] self.nth_ancestor(t, k) == Some(r)
            &&& forall|j: nat| j < k ==> (#[trigger] self.nth_ancestor(t, j) matches Some(b)
                && 0 <= b < self.rule_count() && self.spec_rule(b).next_sibling is None)
        }
    }

    /// `next` is the rule after the subtree of rule `r`: the next sibling of
    /// the nearest of `r` and its ancestors that has one, or none when none
    /// of them has a next sibling.
    pub open spec fn is_next_after_subtree(&self, r: int, next: Option<RuleId>) -> bool {
        &&& (next matches Some(x) ==> exists|k: nat| {
            &&& #[trigger] self.nth_ancestor(r, k) matches Some(a)
            &&& 0 <= a < self.rule_count()
            &&& self.spec_rule(a).next_sibling == Some(x)
            &&& forall|j: nat| j < k ==> (#[trigger] self.nth_ancestor(r, j) matches Some(b)
                && 0 <= b < self.rule_count() && self.spec_rule(b).next_sibling is None)
        })
        &&& (next is None ==> forall|k: nat|
            #[trigger] self.nth_ancestor(r, k) matches Some(a)
                ==> (0 <= a < self.rule_count() ==> self.spec_rule(a).next_sibling is None))
    }

    /// Climbing one more parent link from the `k`-th ancestor.
    proof fn lemma_nth_ancestor_step(&self, t: int, k: nat)
        requires
            self.nth_ancestor(t, k) matches Some(a) && 0 <= a < self.rule_count() && self.spec_rule(a).parent is Some,
        ensures
            self.nth_ancestor(t, k + 1) == Some(self.spec_rule(self.nth_ancestor(t, k).unwrap()).parent.unwrap().0 as int),
        decreases k,
    {
        if k > 0 {
            let p = self.spec_rule(t).parent.unwrap();
            assert(self.nth_ancestor(t, k) == self.nth_ancestor(p.0 as int, (k - 1) as nat));
            self.lemma_nth_ancestor_step(p.0 as int, (k - 1) as nat);
            assert(self.nth_ancestor(t, k + 1) == self.nth_ancestor(p.0 as int, k));
        } else {
            let p = self.spec_rule(t).parent.unwrap();
            assert(self.nth_ancestor(p.0 as int, 0) == Some(p.0 as int));
            assert(self.nth_ancestor(t, 1) == self.nth_ancestor(p.0 as int, 0));
        }
    }

    /// The subtree tail of a live rule `r` is the last rule of its subtree:
    /// a live rule with no live child, reached from `r` by descending, where
    /// every rule of the path below `r` is the last of its list.
    pub proof fn lemma_subtree_tail_is_last(&self, r: int)
        requires
            self.wf(),
            0 <= r < self.rule_count(),
            self.spec_rule(r).live,
        ensures
            self.spec_subtree_tail(r) matches Some(t) && self.is_last_of_subtree(t.0 as int, r),
        decreases self.rule_count() - r,
    {
        reveal(AstContext::wf_sizes);
        reveal(AstContext::wf_tree);
        reveal(AstContext::wf_lists);
        assert((r as u32) as int == r);
        match self.rules@[r].child_list {
            None => {
                assert(self.nth_ancestor(r, 0) == Some(r));
            },
            Some(c) => {
                let l = c.0 as int;
                let s = self.lists@[l];
                match self.rule_lists@[l].last {
                    None => {
                        assert(s.len() == 0);
                        assert(self.nth_ancestor(r, 0) == Some(r));
                    },
                    Some(x) => {
                        self.lemma_last_child_after_parent(r);
                        let xi = x.0 as int;
                        assert(s[s.len() - 1] == x.0);
                        assert(self.rules@[xi].live);
                        assert(self.rules@[xi].parent_list == RuleListId(l as u32));
                        assert(self.rules@[xi].parent == Some(RuleId(r as u32)));
                        assert(self.rules@[xi].next_sibling is None);
                        self.lemma_subtree_tail_is_last(xi);
                        let t = self.spec_subtree_tail(xi).unwrap();
                        let ti = t.0 as int;
                        let kx = choose|k: nat| {
                            &&& #[trigger] self.nth_ancestor(ti, k) == Some(xi)
                            &&& forall|j: nat| j < k ==> (#[trigger] self.nth_ancestor(ti, j) matches Some(b)
                                && 0 <= b < self.rule_count() && self.spec_rule(b).next_sibling is None)
                        };
                        self.lemma_nth_ancestor_step(ti, kx);
                        let k = kx + 1;
                        assert(self.nth_ancestor(ti, k) == Some(r));
                        assert forall|j: nat| j < k implies (#[trigger] self.nth_ancestor(ti, j) matches Some(b)
                            && 0 <= b < self.rule_count() && self.spec_rule(b).next_sibling is None) by {
                            if j == kx {
                                assert(self.nth_ancestor(ti, j) == Some(xi));
                            }
                        }
                    },
                }
            },
        }
    }

    /// The rule after the subtree of a live rule `r` is the next sibling of
    /// the nearest of `r` and its ancestors that has one; there is none
    /// exactly when none of them has a next sibling.
    pub proof fn lemma_next_after_subtree_is_nearest(&self, r: int)
        requires
            self.wf(),
            0 <= r < self.rule_count(),
            self.spec_rule(r).live,
        ensures
            self.is_next_after_subtree(r, self.spec_next_after_subtree(r)),
        decreases r,
    {
        let rec = self.rules@[r];
        if let Some(s) = rec.next_sibling {
            assert(self.nth_ancestor(r, 0) == Some(r));
        } else {
            match rec.parent {
                None => {
                    assert forall|k: nat| #[trigger] self.nth_ancestor(r, k) matches Some(a)
                        ==> (0 <= a < self.rule_count() ==> self.spec_rule(a).next_sibling is None) by {
                        if k > 0 {
                            assert(self.nth_ancestor(r, k) is None);
                        }
                    }
                },
                Some(p) => {
                    reveal(AstContext::wf_tree);
                    reveal(AstContext::wf_lists);
                    let q = p.0 as int;
                    assert(q < r);
                    let l = rec.parent_list.0 as int;
                    assert(self.rule_lists@[l].parent == Some(p));
                    assert(self.rules@[q].live);
                    self.lemma_next_after_subtree_is_nearest(q);
                    assert forall|k: nat| k > 0 implies #[trigger] self.nth_ancestor(r, k) == self.nth_ancestor(q, (k - 1) as nat) by {}
                    if let Some(x) = self.spec_next_after_subtree(q) {
                        let kq = choose|k: nat| {
                            &&& #[trigger] self.nth_ancestor(q, k) matches Some(a)
                            &&& 0 <= a < self.rule_count()
                            &&& self.spec_rule(a).next_sibling == Some(x)
                            &&& forall|j: nat| j < k ==> (#[trigger] self.nth_ancestor(q, j) matches Some(b)
                                && 0 <= b < self.rule_count() && self.spec_rule(b).next_sibling is None)
                        };
                        let k = kq + 1;
                        assert(self.nth_ancestor(r, k) == self.nth_ancestor(q, kq));
                        assert forall|j: nat| j < k implies (#[trigger] self.nth_ancestor(r, j) matches Some(b)
                            && 0 <= b < self.rule_count() && self.spec_rule(b).next_sibling is None) by {
                            if j > 0 {
                                assert(self.nth_ancestor(r, j) == self.nth_ancestor(q, (j - 1) as nat));
                                assert(((j - 1) as nat) < kq);
                            } else {
                                assert(self.nth_ancestor(r, j) == Some(r));
                            }
                        }
                    } else {
                        assert forall|k: nat| #[trigger] self.nth_ancestor(r, k) matches Some(a)
                        ==> (0 <= a < self.rule_count() ==> self.spec_rule(a).next_sibling is None) by {
                            if k > 0 {
                                assert(self.nth_ancestor(r, k) == self.nth_ancestor(q, (k - 1) as nat));
                            }
                        }
                    }
                },
            }
        }
    }
}

} // verus!
