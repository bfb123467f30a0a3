//! Folding the declaration chains of adjacent rules into one block.

use super::mutation::retired_record;
use super::{
    declaration_at, same_rule_fields, lemma_distinct_below_len, rule_at, same_declaration_side, same_lists_except,
    same_rule_side, wrapping_inc, AstContext,
};
use super::append::with_next_in_block;
use crate::ids::{DeclarationBlockId, DeclarationId, RuleId};
use crate::records::{
    DeclarationBlockOwner, DeclarationBlockRecord, DeclarationRecord, MergedAdjacentRuleBlocks, MutationError,
    RuleList, RuleRecord, DENSE_CAPACITY,
};
use vstd::prelude::*;

verus! {

impl<R, D> AstContext<R, D> {
    /// The chains of two different blocks hold together at most as many
    /// declarations as the store.
    proof fn lemma_two_chains_bounded(&self, b1: int, b2: int)
        requires
            self.wf(),
            0 <= b1 < self.declaration_blocks@.len(),
            0 <= b2 < self.declaration_blocks@.len(),
            b1 != b2,
        ensures
            self.chains@[b1].len() + self.chains@[b2].len() <= self.declarations@.len(),
            self.chains@[b1].len() == self.declaration_blocks@[b1].declaration_count,
            self.chains@[b2].len() == self.declaration_blocks@[b2].declaration_count,
    {
        reveal(AstContext::wf_blocks);
        let s = self.chains@[b1] + self.chains@[b2];
        let c1 = self.chains@[b1];
        let c2 = self.chains@[b2];
        assert forall|i: int| 0 <= i < s.len() implies (s[i] as int) < self.declarations@.len() by {
            if i < c1.len() {
                assert(s[i] == c1[i]);
            } else {
                assert(s[i] == c2[i - c1.len()]);
            }
        }
        assert forall|i: int, j: int| 0 <= i < j < s.len() implies s[i] != s[j] by {
            if j < c1.len() {
                assert(self.decl_pos@[c1[i] as int] == i);
                assert(self.decl_pos@[c1[j] as int] == j);
            } else if i >= c1.len() {
                assert(self.decl_pos@[c2[i - c1.len()] as int] == i - c1.len());
                assert(self.decl_pos@[c2[j - c1.len()] as int] == j - c1.len());
            } else {
                assert(self.decl_owner@[c1[i] as int] == b1);
                assert(self.decl_owner@[c2[j - c1.len()] as int] == b2);
            }
        }
        lemma_distinct_below_len(s, self.declarations@.len() as int);
    }

    /// Moves the whole chain of block `from` in front of the chain of block
    /// `into`; `from` is left with an empty chain.
    fn prepend_chain(&mut self, from: DeclarationBlockId, into: DeclarationBlockId)
        requires
            old(self).wf(),
            (from.0 as int) < old(self).block_count(),
            (into.0 as int) < old(self).block_count(),
            from != into,
        ensures
            final(self).wf(),
            final(self).chain(into.0 as int) == old(self).chain(from.0 as int) + old(self).chain(into.0 as int),
            final(self).chain(from.0 as int) == Seq::<u32>::empty(),
            final(self).spec_block(from.0 as int) == (DeclarationBlockRecord {
                first_declaration: None,
                last_declaration: None,
                declaration_count: 0,
                ..old(self).spec_block(from.0 as int)
            }),
            ({
                let fr = old(self).spec_block(from.0 as int);
                let tr = old(self).spec_block(into.0 as int);
                final(self).spec_block(into.0 as int) == (DeclarationBlockRecord {
                    first_declaration: if fr.first_declaration is Some { fr.first_declaration } else { tr.first_declaration },
                    last_declaration: if tr.last_declaration is Some { tr.last_declaration } else { fr.last_declaration },
                    declaration_count: (fr.declaration_count + tr.declaration_count) as u32,
                    ..tr
                })
            }),
            final(self).block_count() == old(self).block_count(),
            forall|b: int| 0 <= b < old(self).block_count() && b != from.0 && b != into.0 ==>
                #[trigger] final(self).spec_block(b) == old(self).spec_block(b),
            forall|b: int| 0 <= b < old(self).block_count() && b != from.0 && b != into.0 ==>
                #[trigger] final(self).chain(b) == old(self).chain(b),
            final(self).declaration_count() == old(self).declaration_count(),
            forall|d: int| 0 <= d < old(self).declaration_count() ==> {
                &&& (#[trigger] final(self).spec_declaration(d)).payload == old(self).spec_declaration(d).payload
                &&& final(self).spec_declaration(d).important == old(self).spec_declaration(d).important
            },
            final(self).key_count() == old(self).key_count(),
            forall|k: int| 0 <= k < old(self).key_count() ==> #[trigger] final(self).spec_key(k) == old(self).spec_key(k),
            same_rule_side(final(self), old(self)),
    {
        let f = from.0 as usize;
        let t = into.0 as usize;
        let ghost pre = *self;
        proof {
            self.lemma_two_chains_bounded(f as int, t as int);
            reveal(AstContext::wf_blocks);
            reveal(AstContext::wf_sizes);
            let cf = self.chains@[f as int];
            if cf.len() > 0 {
                assert(cf[cf.len() - 1] < self.declarations@.len());
            }
        }
        let fr = self.declaration_blocks[f];
        let tr = self.declaration_blocks[t];
        if let Some(from_last) = fr.last_declaration {
            if let Some(into_first) = tr.first_declaration {
                self.declarations[from_last.0 as usize].next_in_block = Some(into_first);
            }
        }
        let merged = DeclarationBlockRecord {
            first_declaration: if fr.first_declaration.is_some() { fr.first_declaration } else { tr.first_declaration },
            last_declaration: if tr.last_declaration.is_some() { tr.last_declaration } else { fr.last_declaration },
            declaration_count: fr.declaration_count + tr.declaration_count,
            ..tr
        };
        let emptied = DeclarationBlockRecord {
            first_declaration: None,
            last_declaration: None,
            declaration_count: 0,
            ..fr
        };
        self.declaration_blocks.set(t, merged);
        self.declaration_blocks.set(f, emptied);
        proof {
            let cf = pre.chains@[f as int];
            let ct = pre.chains@[t as int];
            self.chains@ = pre.chains@.update(t as int, cf + ct).update(f as int, Seq::<u32>::empty());
            self.decl_owner@ = Seq::new(pre.decl_owner@.len(), |d: int| if pre.decl_owner@[d] == f as int {
                t as int
            } else {
                pre.decl_owner@[d]
            });
            self.decl_pos@ = Seq::new(pre.decl_pos@.len(), |d: int| if pre.decl_owner@[d] == t as int {
                pre.decl_pos@[d] + cf.len()
            } else {
                pre.decl_pos@[d]
            });
            Self::lemma_prepend_step(pre, *self, f as int, t as int);
        }
    }

    /// A chain prepend step keeps the context well formed.
    #[verifier::rlimit(40)]
    proof fn lemma_prepend_step(pre: Self, post: Self, f: int, t: int)
        requires
            pre.wf(),
            0 <= f < pre.declaration_blocks@.len(),
            0 <= t < pre.declaration_blocks@.len(),
            f != t,
            pre.chains@[f].len() + pre.chains@[t].len() <= pre.declarations@.len(),
            ({
                let fr = pre.declaration_blocks@[f];
                let tr = pre.declaration_blocks@[t];
                let cf = pre.chains@[f];
                let ct = pre.chains@[t];
                &&& post.declarations@ == (match (fr.last_declaration, tr.first_declaration) {
                    (Some(fl), Some(tf)) => pre.declarations@.update(fl.0 as int,
                        with_next_in_block(pre.declarations@[fl.0 as int], Some(tf))),
                    _ => pre.declarations@,
                })
                &&& post.declaration_blocks@ == pre.declaration_blocks@.update(t, DeclarationBlockRecord {
                    first_declaration: if fr.first_declaration is Some { fr.first_declaration } else { tr.first_declaration },
                    last_declaration: if tr.last_declaration is Some { tr.last_declaration } else { fr.last_declaration },
                    declaration_count: (fr.declaration_count + tr.declaration_count) as u32,
                    ..tr
                }).update(f, DeclarationBlockRecord {
                    first_declaration: None,
                    last_declaration: None,
                    declaration_count: 0,
                    ..fr
                })
                &&& post.chains@ == pre.chains@.update(t, cf + ct).update(f, Seq::<u32>::empty())
                &&& post.decl_owner@ == Seq::new(pre.decl_owner@.len(), |d: int| if pre.decl_owner@[d] == f {
                    t
                } else {
                    pre.decl_owner@[d]
                })
                &&& post.decl_pos@ == Seq::new(pre.decl_pos@.len(), |d: int| if pre.decl_owner@[d] == t {
                    pre.decl_pos@[d] + cf.len()
                } else {
                    pre.decl_pos@[d]
                })
            }),
            post.rules@ == pre.rules@,
            post.rule_spans@ == pre.rule_spans@,
            post.rule_lists@ == pre.rule_lists@,
            post.effective_keys@ == pre.effective_keys@,
            post.effective_key_ids == pre.effective_key_ids,
            post.stylesheet == pre.stylesheet,
            post.license_comments@ == pre.license_comments@,
            post.first_rule_in_source == pre.first_rule_in_source,
            post.last_rule_in_source == pre.last_rule_in_source,
            post.source@ == pre.source@,
            post.source_pos@ == pre.source_pos@,
            post.lists@ == pre.lists@,
            post.list_pos@ == pre.list_pos@,
        ensures
            post.wf(),
    {
        reveal(AstContext::wf_blocks);
        reveal(AstContext::wf_sizes);
        let nb = pre.declaration_blocks@.len();
        let nd = pre.declarations@.len();
        let fr = pre.declaration_blocks@[f];
        let tr = pre.declaration_blocks@[t];
        let cf = pre.chains@[f];
        let ct = pre.chains@[t];
        let c2 = cf + ct;
        if cf.len() > 0 {
            assert(cf[cf.len() - 1] < nd);
        }
        Self::lemma_frame_source(pre, post);
        Self::lemma_frame_lists(pre, post);
        Self::lemma_frame_tree(pre, post);
        Self::lemma_frame_keys(pre, post);
        assert forall|b: int| 0 <= b < nb implies {
            let c = #[trigger] post.chains@[b];
            let rec = post.declaration_blocks@[b];
            &&& c.len() == rec.declaration_count
            &&& rec.first_declaration == declaration_at(c, 0)
            &&& rec.last_declaration == declaration_at(c, c.len() - 1)
            &&& (rec.owner->Rule_0.0 as int) < post.rules@.len()
            &&& post.rules@[rec.owner->Rule_0.0 as int].declaration_block == Some(DeclarationBlockId(b as u32))
            &&& rec.live == post.rules@[rec.owner->Rule_0.0 as int].live
            &&& (rec.effective_key.0 as int) < post.effective_keys@.len()
        } by {
            if b == t {
                assert(post.chains@[b] == c2);
                if cf.len() > 0 {
                    assert(c2[0] == cf[0]);
                } else if ct.len() > 0 {
                    assert(c2[0] == ct[0]);
                }
                if ct.len() > 0 {
                    assert(c2[c2.len() - 1] == ct[ct.len() - 1]);
                } else if cf.len() > 0 {
                    assert(c2[c2.len() - 1] == cf[cf.len() - 1]);
                }
            } else if b != f {
                assert(post.chains@[b] == pre.chains@[b]);
                assert(post.declaration_blocks@[b] == pre.declaration_blocks@[b]);
            }
        }
        assert forall|b: int, i: int| 0 <= b < nb && 0 <= i < post.chains@[b].len() implies {
            let d = #[trigger] post.chains@[b][i];
            &&& d < post.declarations@.len()
            &&& post.decl_owner@[d as int] == b
            &&& post.decl_pos@[d as int] == i
            &&& post.declarations@[d as int].next_in_block == declaration_at(post.chains@[b], i + 1)
        } by {
            if b == t {
                assert(post.chains@[b] == c2);
                if i < cf.len() {
                    let d = cf[i];
                    assert(c2[i] == d);
                    assert(d < nd && pre.decl_owner@[d as int] == f && pre.decl_pos@[d as int] == i);
                    if i + 1 < cf.len() {
                        assert(c2[i + 1] == cf[i + 1]);
                    } else if ct.len() > 0 {
                        assert(c2[i + 1] == ct[0]);
                    }
                } else {
                    let d = ct[i - cf.len()];
                    assert(c2[i] == d);
                    assert(d < nd && pre.decl_owner@[d as int] == t && pre.decl_pos@[d as int] == i - cf.len());
                    if i + 1 < c2.len() {
                        assert(c2[i + 1] == ct[i + 1 - cf.len()]);
                    }
                    if cf.len() > 0 {
                        assert(d != cf[cf.len() - 1]);
                    }
                }
            } else if b != f {
                let d = pre.chains@[b][i];
                assert(post.chains@[b] == pre.chains@[b]);
                assert(d < nd && pre.decl_owner@[d as int] == b);
                if cf.len() > 0 {
                    assert(pre.decl_owner@[cf[cf.len() - 1] as int] == f);
                    assert(d != cf[cf.len() - 1]);
                }
            }
        }
        assert forall|d: int| 0 <= d < nd implies {
            let b = #[trigger] post.decl_owner@[d];
            &&& 0 <= b < nb
            &&& 0 <= post.decl_pos@[d] < post.chains@[b].len()
            &&& post.chains@[b][post.decl_pos@[d]] == d
        } by {
            let b0 = pre.decl_owner@[d];
            if b0 == f {
                assert(post.chains@[t] == c2);
                assert(c2[pre.decl_pos@[d]] == cf[pre.decl_pos@[d]]);
            } else if b0 == t {
                assert(post.chains@[t] == c2);
                assert(c2[pre.decl_pos@[d] + cf.len()] == ct[pre.decl_pos@[d]]);
            } else {
                assert(post.chains@[b0] == pre.chains@[b0]);
            }
        }
        assert(post.wf_blocks());
        assert(post.wf_sizes());
    }
}

} // verus!

verus! {

impl<R, D> AstContext<R, D> {
    /// The source position that bounds the walk from `left` to `right`:
    /// `right`'s when it comes after `left`, else the end of the chain.
    pub open spec fn merge_walk_bound(&self, left: RuleId, right: RuleId) -> int {
        let pl = self.source_position(left.0 as int);
        let pr = self.source_position(right.0 as int);
        if pl < pr {
            pr
        } else {
            self.rule_count() as int
        }
    }

    /// What merging the block of `left` into the block of its next sibling
    /// `right` returns.
    pub open spec fn spec_merge_result(old: &Self, left: RuleId, right: RuleId) -> Result<MergedAdjacentRuleBlocks, MutationError> {
        let lr = old.spec_rule(left.0 as int);
        let rr = old.spec_rule(right.0 as int);
        let pl = old.source_position(left.0 as int);
        let pr = old.source_position(right.0 as int);
        if left.0 >= old.rule_count() {
            Err(MutationError::UnknownRule(left))
        } else if right.0 >= old.rule_count() {
            Err(MutationError::UnknownRule(right))
        } else if !lr.live {
            Err(MutationError::RetiredRule(left))
        } else if !rr.live {
            Err(MutationError::RetiredRule(right))
        } else if lr.child_list is Some {
            Err(MutationError::RuleHasChildren(left))
        } else if lr.next_sibling != Some(right) {
            Err(MutationError::InvalidRuleTopology(left))
        } else if old.first_live_between(pl, old.merge_walk_bound(left, right)) is Some {
            Err(MutationError::InvalidRuleTopology(RuleId(
                old.source_seq()[old.first_live_between(pl, old.merge_walk_bound(left, right))->0])))
        } else if pr < pl {
            Err(MutationError::InvalidRuleTopology(left))
        } else if lr.declaration_block is None {
            Err(MutationError::InvalidRuleTopology(left))
        } else if rr.declaration_block is None {
            Err(MutationError::InvalidRuleTopology(right))
        } else if old.spec_block(lr.declaration_block.unwrap().0 as int).effective_key
            != old.spec_block(rr.declaration_block.unwrap().0 as int).effective_key {
            Err(MutationError::InvalidRuleTopology(left))
        } else {
            Ok(MergedAdjacentRuleBlocks {
                retired_rule: left,
                retired_block: lr.declaration_block->0,
                retained_rule: right,
                retained_block: rr.declaration_block->0,
                effective_key: old.spec_block(lr.declaration_block.unwrap().0 as int).effective_key,
            })
        }
    }

    /// `self` is `old` after the declaration chain of `left` and those of the
    /// retired rules between `left` and `right` in source order were folded,
    /// in source order, in front of the chain of `right`, and `left` was
    /// retired.
    pub open spec fn is_merge_of(&self, old: &Self, left: RuleId, right: RuleId) -> bool {
        let x = left.0 as int;
        let y = right.0 as int;
        let lr = old.spec_rule(x);
        let rr = old.spec_rule(y);
        let lb = lr.declaration_block.unwrap().0 as int;
        let rb = rr.declaration_block.unwrap().0 as int;
        let bridges = old.blocks_at(old.source_position(x) + 1, old.source_position(y));
        let l = lr.parent_list.0 as int;
        let old_list = old.spec_list(l);
        &&& self.chain(rb) == old.chain(lb) + old.concat_chains(bridges) + old.chain(rb)
        &&& self.spec_block(rb).revision == wrapping_inc(old.spec_block(rb).revision)
        &&& self.spec_block(rb).live
        &&& self.spec_block(rb).owner == old.spec_block(rb).owner
        &&& self.spec_block(rb).effective_key == old.spec_block(rb).effective_key
        &&& self.chain(lb) == Seq::<u32>::empty()
        &&& self.spec_block(lb) == (DeclarationBlockRecord {
            first_declaration: None,
            last_declaration: None,
            declaration_count: 0,
            live: false,
            revision: wrapping_inc(wrapping_inc(old.spec_block(lb).revision)),
            ..old.spec_block(lb)
        })
        &&& forall|j: int| 0 <= j < bridges.len() ==> #[trigger] self.chain(bridges[j].0 as int) == Seq::<u32>::empty()
            && self.spec_block(bridges[j].0 as int) == (DeclarationBlockRecord {
                first_declaration: None,
                last_declaration: None,
                declaration_count: 0,
                revision: wrapping_inc(old.spec_block(bridges[j].0 as int).revision),
                ..old.spec_block(bridges[j].0 as int)
            })
        &&& self.block_count() == old.block_count()
        &&& forall|b: int| 0 <= b < old.block_count() && b != rb && b != lb
            && !(exists|j: int| 0 <= j < bridges.len() && #[trigger] bridges[j].0 == b)
            ==> #[trigger] self.spec_block(b) == old.spec_block(b) && self.chain(b) == old.chain(b)
        &&& self.declaration_count() == old.declaration_count()
        &&& forall|d: int| 0 <= d < old.declaration_count() ==> {
            &&& (#[trigger] self.spec_declaration(d)).payload == old.spec_declaration(d).payload
            &&& self.spec_declaration(d).important == old.spec_declaration(d).important
        }
        &&& self.key_count() == old.key_count()
        &&& forall|k: int| 0 <= k < old.key_count() ==> #[trigger] self.spec_key(k) == old.spec_key(k)
        &&& self.rule_count() == old.rule_count()
        &&& self.spec_rule(x) == retired_record(lr)
        &&& self.spec_rule(y) == (RuleRecord {
            revision: wrapping_inc(rr.revision),
            previous_sibling: lr.previous_sibling,
            ..rr
        })
        &&& forall|z: int| 0 <= z < old.rule_count() && z != x && z != y ==> {
            &&& same_rule_fields(#[trigger] self.spec_rule(z), old.spec_rule(z))
            &&& self.spec_rule(z).source_order_id == old.spec_rule(z).source_order_id
            &&& self.spec_rule(z).previous_in_source == old.spec_rule(z).previous_in_source
            &&& self.spec_rule(z).next_in_source == old.spec_rule(z).next_in_source
        }
        &&& forall|z: int| 0 <= z < old.rule_count() ==> #[trigger] self.spec_rule_span(z) == old.spec_rule_span(z)
        &&& self.source_seq() == old.source_seq()
        &&& self.list_seq(l) == old.list_seq(l).remove(old.list_position(x))
        &&& self.spec_list(l) == (RuleList {
            first: if old_list.first == Some(left) { lr.next_sibling } else { old_list.first },
            last: old_list.last,
            live_len: (old_list.live_len - 1) as u32,
            parent: old_list.parent,
        })
        &&& same_lists_except(self, old, l)
        &&& self.spec_stylesheet() == old.spec_stylesheet()
        &&& self.spec_license_comments() == old.spec_license_comments()
    }

    /// Folds the declaration chain of leaf rule `left` into its next direct
    /// sibling `right` and retires `left` in the same transaction.
    ///
    /// Only retired rules may lie between the two in source order; their
    /// blocks' chains are absorbed as well, in source order. Every check
    /// happens before any mutation is published.
    pub fn merge_adjacent_rule_declaration_blocks(&mut self, left: RuleId, right: RuleId) -> (r: Result<MergedAdjacentRuleBlocks, MutationError>)
        requires
            old(self).wf(),
        ensures
            final(self).wf(),
            r == Self::spec_merge_result(old(self), left, right),
            r is Ok ==> final(self).is_merge_of(old(self), left, right),
            r is Err ==> *final(self) == *old(self),
    {
        let li = left.0 as usize;
        let ri = right.0 as usize;
        if li >= self.rules.len() {
            return Err(MutationError::UnknownRule(left));
        }
        if ri >= self.rules.len() {
            return Err(MutationError::UnknownRule(right));
        }
        if !self.rules[li].live {
            return Err(MutationError::RetiredRule(left));
        }
        if !self.rules[ri].live {
            return Err(MutationError::RetiredRule(right));
        }
        if self.rules[li].child_list.is_some() {
            return Err(MutationError::RuleHasChildren(left));
        }
        proof {
            self.lemma_merge_neighbours(li as int, ri as int);
            assert(RuleId(ri as u32) == right);
            assert(RuleId(li as u32) == left);
        }
        if self.rules[li].next_sibling != Some(right) || self.rules[ri].previous_sibling != Some(left)
            || self.rules[li].parent != self.rules[ri].parent
            || self.rules[li].parent_list != self.rules[ri].parent_list {
            return Err(MutationError::InvalidRuleTopology(left));
        }
        let bridge_blocks = match self.merge_bridge_blocks(left, right) {
            Ok(blocks) => blocks,
            Err(err) => {
                return Err(err);
            },
        };
        let left_block_id = match self.rules[li].declaration_block {
            Some(block) => block,
            None => {
                return Err(MutationError::InvalidRuleTopology(left));
            },
        };
        let right_block_id = match self.rules[ri].declaration_block {
            Some(block) => block,
            None => {
                return Err(MutationError::InvalidRuleTopology(right));
            },
        };
        proof {
            self.lemma_owned_block(li as int);
            self.lemma_owned_block(ri as int);
        }
        let lb = left_block_id.0 as usize;
        let rb = right_block_id.0 as usize;
        if lb >= self.declaration_blocks.len() {
            return Err(MutationError::UnknownDeclarationBlock(left_block_id));
        }
        if rb >= self.declaration_blocks.len() {
            return Err(MutationError::UnknownDeclarationBlock(right_block_id));
        }
        if !self.declaration_blocks[lb].live || !self.declaration_blocks[rb].live
            || self.declaration_blocks[lb].owner != DeclarationBlockOwner::Rule(left)
            || self.declaration_blocks[rb].owner != DeclarationBlockOwner::Rule(right)
            || self.declaration_blocks[lb].effective_key != self.declaration_blocks[rb].effective_key {
            return Err(MutationError::InvalidRuleTopology(left));
        }
        let effective_key = self.declaration_blocks[lb].effective_key;
        let ghost pre = *self;
        let ghost pl = self.source_position(li as int);
        let ghost pr = self.source_position(ri as int);
        let ghost bridges = bridge_blocks@;
        let ghost nb = self.block_count();
        proof {
            assert(nb <= DENSE_CAPACITY) by {
                reveal(AstContext::wf_sizes);
            }
            assert(0 <= pl && pl + 1 <= pr && pr <= self.rules@.len()) by {
                reveal(AstContext::wf_source);
            }
            self.lemma_blocks_at(pl + 1, pr);
            assert forall|j: int| 0 <= j < bridges.len() implies (#[trigger] bridges[j]) != right_block_id
                && bridges[j] != left_block_id by {
                let o = self.declaration_blocks@[bridges[j].0 as int].owner->Rule_0.0 as int;
                assert(o != ri as int && o != li as int) by {
                    reveal(AstContext::wf_source);
                }
            }
        }
        let retired = self.retire_rule(left);
        proof {
            assert(retired is Ok);
        }
        let ghost s1 = *self;
        let mut k = bridge_blocks.len();
        while k > 0
            invariant
                self.wf(),
                0 <= k <= bridges.len(),
                bridge_blocks@ == bridges,
                (rb as int) < nb,
                (lb as int) < nb,
                lb != rb,
                right_block_id.0 == rb,
                left_block_id.0 == lb,
                forall|j: int| 0 <= j < bridges.len() ==> (#[trigger] bridges[j].0 as int) < nb
                    && bridges[j] != right_block_id && bridges[j] != left_block_id,
                forall|i: int, j: int| 0 <= i < j < bridges.len() ==> #[trigger] bridges[i] != #[trigger] bridges[j],
                self.block_count() == nb,
                self.chain(rb as int) == pre.concat_chains(bridges.subrange(k as int, bridges.len() as int)) + pre.chain(rb as int),
                forall|j: int| k <= j < bridges.len() ==> #[trigger] self.chain(bridges[j].0 as int) == Seq::<u32>::empty(),
                forall|b: int| 0 <= b < nb && b != rb && !(exists|j: int| k <= j < bridges.len() && #[trigger] bridges[j].0 == b)
                    ==> #[trigger] self.chain(b) == pre.chain(b),
                forall|j: int| k <= j < bridges.len() ==> #[trigger] self.spec_block(bridges[j].0 as int) == (DeclarationBlockRecord {
                    first_declaration: None,
                    last_declaration: None,
                    declaration_count: 0,
                    revision: wrapping_inc(s1.spec_block(bridges[j].0 as int).revision),
                    ..s1.spec_block(bridges[j].0 as int)
                }),
                forall|b: int| 0 <= b < nb && b != rb && !(exists|j: int| k <= j < bridges.len() && #[trigger] bridges[j].0 == b)
                    ==> #[trigger] self.spec_block(b) == s1.spec_block(b),
                ({
                    let x = self.spec_block(rb as int);
                    let y = s1.spec_block(rb as int);
                    x.revision == y.revision && x.live == y.live && x.owner == y.owner && x.effective_key == y.effective_key
                }),
                self.declaration_count() == pre.declaration_count(),
                forall|d: int| 0 <= d < pre.declaration_count() ==> {
                    &&& (#[trigger] self.spec_declaration(d)).payload == pre.spec_declaration(d).payload
                    &&& self.spec_declaration(d).important == pre.spec_declaration(d).important
                },
                self.key_count() == pre.key_count(),
                forall|x: int| 0 <= x < pre.key_count() ==> #[trigger] self.spec_key(x) == pre.spec_key(x),
                same_rule_side(self, &s1),
            decreases k,
        {
            k = k - 1;
            let b = bridge_blocks[k];
            let ghost cur = *self;
            proof {
                assert(!(exists|j: int| (k + 1) as int <= j < bridges.len() && #[trigger] bridges[j].0 == b.0)) by {
                    if exists|j: int| (k + 1) as int <= j < bridges.len() && #[trigger] bridges[j].0 == b.0 {
                        let j = choose|j: int| (k + 1) as int <= j < bridges.len() && #[trigger] bridges[j].0 == b.0;
                        assert(bridges[k as int] != bridges[j]);
                    }
                }
                assert(cur.chain(b.0 as int) == pre.chain(b.0 as int));
                pre.lemma_concat_chains_step(bridges, k as int);
            }
            self.prepend_chain(b, right_block_id);
            self.bump_block_revision(b);
            proof {
                let tail = pre.concat_chains(bridges.subrange(k + 1, bridges.len() as int));
                assert(cur.chain(rb as int) == tail + pre.chain(rb as int));
                assert(self.chain(rb as int) == cur.chain(b.0 as int) + cur.chain(rb as int));
                assert(self.chain(rb as int) =~= pre.concat_chains(bridges.subrange(k as int, bridges.len() as int)) + pre.chain(rb as int));
                assert forall|b2: int| 0 <= b2 < nb && b2 != rb && !(exists|j: int| k <= j < bridges.len() && #[trigger] bridges[j].0 == b2)
                    implies #[trigger] self.chain(b2) == pre.chain(b2) by {
                    assert(b2 != b.0) by {
                        if b2 == b.0 {
                            assert(bridges[k as int].0 == b2);
                        }
                    }
                    assert(!(exists|j: int| (k + 1) as int <= j < bridges.len() && #[trigger] bridges[j].0 == b2));
                    assert(cur.chain(b2) == pre.chain(b2));
                }
                assert forall|j: int| k <= j < bridges.len() implies #[trigger] self.chain(bridges[j].0 as int) == Seq::<u32>::empty() by {
                    if j > k {
                        assert(bridges[j] != bridges[k as int]);
                    }
                }
                assert forall|j: int| k <= j < bridges.len() implies #[trigger] self.spec_block(bridges[j].0 as int) == (DeclarationBlockRecord {
                    first_declaration: None,
                    last_declaration: None,
                    declaration_count: 0,
                    revision: wrapping_inc(s1.spec_block(bridges[j].0 as int).revision),
                    ..s1.spec_block(bridges[j].0 as int)
                }) by {
                    if j > k {
                        assert(bridges[j] != bridges[k as int]);
                    } else {
                        assert(cur.spec_block(b.0 as int) == s1.spec_block(b.0 as int));
                    }
                }
                assert forall|b2: int| 0 <= b2 < nb && b2 != rb && !(exists|j: int| k <= j < bridges.len() && #[trigger] bridges[j].0 == b2)
                    implies #[trigger] self.spec_block(b2) == s1.spec_block(b2) by {
                    assert(b2 != b.0) by {
                        if b2 == b.0 {
                            assert(bridges[k as int].0 == b2);
                        }
                    }
                    assert(!(exists|j: int| (k + 1) as int <= j < bridges.len() && #[trigger] bridges[j].0 == b2));
                    assert(cur.spec_block(b2) == s1.spec_block(b2));
                }
            }
        }
        let ghost s2 = *self;
        proof {
            assert(s2.chain(lb as int) == pre.chain(lb as int)) by {
                assert(!(exists|j: int| 0 <= j < bridges.len() && #[trigger] bridges[j].0 == lb));
            }
            assert(s2.spec_block(lb as int) == s1.spec_block(lb as int)) by {
                assert(!(exists|j: int| 0 <= j < bridges.len() && #[trigger] bridges[j].0 == lb));
            }
            assert(bridges.subrange(0, bridges.len() as int) =~= bridges);
        }
        self.prepend_chain(left_block_id, right_block_id);
        self.bump_block_revision(left_block_id);
        self.bump_block_revision(right_block_id);
        self.bump_rule_revision(right);
        proof {
            assert(self.chain(rb as int) =~= pre.chain(lb as int) + pre.concat_chains(bridges) + pre.chain(rb as int));
            assert forall|j: int| 0 <= j < bridges.len() implies #[trigger] self.chain(bridges[j].0 as int) == Seq::<u32>::empty()
                && self.spec_block(bridges[j].0 as int) == (DeclarationBlockRecord {
                    first_declaration: None,
                    last_declaration: None,
                    declaration_count: 0,
                    revision: wrapping_inc(pre.spec_block(bridges[j].0 as int).revision),
                    ..pre.spec_block(bridges[j].0 as int)
                }) by {
                assert(s2.chain(bridges[j].0 as int) == Seq::<u32>::empty());
                assert(s1.spec_block(bridges[j].0 as int) == pre.spec_block(bridges[j].0 as int));
            }
            assert forall|b: int| 0 <= b < nb && b != rb && b != lb && !(exists|j: int| 0 <= j < bridges.len() && #[trigger] bridges[j].0 == b)
                implies #[trigger] self.spec_block(b) == pre.spec_block(b) && self.chain(b) == pre.chain(b) by {
                assert(s2.spec_block(b) == s1.spec_block(b));
                assert(s2.chain(b) == pre.chain(b));
                assert(DeclarationBlockId(b as u32) != left_block_id);
                assert(s1.spec_block(b) == pre.spec_block(b));
            }
            let x = li as int;
            let y = ri as int;
            let lr = pre.spec_rule(x);
            let rr = pre.spec_rule(y);
            assert(self.spec_rule(x) == retired_record(lr));
            assert(self.spec_rule(y) == (RuleRecord {
                revision: wrapping_inc(rr.revision),
                previous_sibling: lr.previous_sibling,
                ..rr
            }));
            assert(self.spec_block(lb as int) == (DeclarationBlockRecord {
                first_declaration: None,
                last_declaration: None,
                declaration_count: 0,
                live: false,
                revision: wrapping_inc(wrapping_inc(pre.spec_block(lb as int).revision)),
                ..pre.spec_block(lb as int)
            }));
            assert(self.spec_block(rb as int).live);
            assert((lr.parent_list.0 as int) < pre.list_count()) by {
                reveal(AstContext::wf_lists);
            }
        }
        Ok(MergedAdjacentRuleBlocks {
            retired_rule: left,
            retired_block: left_block_id,
            retained_rule: right,
            retained_block: right_block_id,
            effective_key,
        })
    }

    /// Facts about a well-formed context that merging `l` into `r` relies on.
    proof fn lemma_merge_neighbours(&self, l: int, r: int)
        requires
            self.wf(),
            0 <= l < self.rules@.len(),
            0 <= r < self.rules@.len(),
            self.rules@[l].live,
        ensures
            self.rules@[l].next_sibling == Some(RuleId(r as u32)) ==> {
                &&& self.rules@[r].previous_sibling == Some(RuleId(l as u32))
                &&& self.rules@[r].parent == self.rules@[l].parent
                &&& self.rules@[r].parent_list == self.rules@[l].parent_list
                &&& self.rules@[l].previous_sibling != Some(RuleId(r as u32))
                &&& self.rule_lists@[self.rules@[l].parent_list.0 as int].last != Some(RuleId(l as u32))
            },
            RuleId(l as u32).0 == l,
            RuleId(r as u32).0 == r,
            self.rules@[l].next_sibling != Some(RuleId(l as u32)),
    {
        reveal(AstContext::wf_lists);
        reveal(AstContext::wf_sizes);
        let pl = self.rules@[l].parent_list.0 as int;
        let i = self.list_pos@[l];
        assert(self.lists@[pl][i] == l);
        if self.rules@[l].next_sibling == Some(RuleId(r as u32)) {
            assert(self.lists@[pl][i + 1] == r);
            assert(self.list_pos@[r] == i + 1);
            let ls = self.lists@[pl];
            assert(self.list_pos@[ls[ls.len() - 1] as int] == ls.len() - 1);
            if i > 0 {
                assert(self.list_pos@[self.lists@[pl][i - 1] as int] == i - 1);
            }
        }
        if self.rules@[l].next_sibling is Some {
            assert(self.list_pos@[self.lists@[pl][i + 1] as int] == i + 1);
        }
    }

    /// A rule's declaration block exists, has the rule as owner and shares
    /// its liveness.
    proof fn lemma_owned_block(&self, r: int)
        requires
            self.wf(),
            0 <= r < self.rules@.len(),
        ensures
            self.rules@[r].declaration_block matches Some(b) ==> {
                &&& (b.0 as int) < self.declaration_blocks@.len()
                &&& self.declaration_blocks@[b.0 as int].owner == DeclarationBlockOwner::Rule(RuleId(r as u32))
                &&& self.declaration_blocks@[b.0 as int].live == self.rules@[r].live
            },
    {
        reveal(AstContext::wf_blocks);
        reveal(AstContext::wf_sizes);
        if let Some(b) = self.rules@[r].declaration_block {
            assert(self.chains@[b.0 as int] == self.chains@[b.0 as int]);
        }
    }
}

} // verus!

verus! {

impl<R, D> AstContext<R, D> {
    /// Walks source order from `left` to `right` over retired rules only,
    /// collecting their declaration blocks.
    fn merge_bridge_blocks(&self, left: RuleId, right: RuleId) -> (r: Result<Vec<DeclarationBlockId>, MutationError>)
        requires
            self.wf(),
            (left.0 as int) < self.rules@.len(),
            (right.0 as int) < self.rules@.len(),
            left != right,
        ensures
            ({
                let pl = self.source_position(left.0 as int);
                let pr = self.source_position(right.0 as int);
                let first = self.first_live_between(pl, self.merge_walk_bound(left, right));
                &&& pl != pr
                &&& r is Ok <==> first is None && pl < pr
                &&& first matches Some(p) ==> r == Err::<Vec<DeclarationBlockId>, MutationError>(
                    MutationError::InvalidRuleTopology(RuleId(self.source_seq()[p])))
                &&& first is None && pr < pl ==> r == Err::<Vec<DeclarationBlockId>, MutationError>(
                    MutationError::InvalidRuleTopology(left))
                &&& r matches Ok(v) ==> v@ == self.blocks_at(pl + 1, pr)
            }),
    {
        let ghost n = self.rules@.len();
        let ghost pl = self.source_pos@[left.0 as int];
        let ghost pr = self.source_pos@[right.0 as int];
        let ghost bound = self.merge_walk_bound(left, right);
        proof {
            reveal(AstContext::wf_source);
            reveal(AstContext::wf_sizes);
            assert(self.source@[pl] == left.0 && self.source@[pr] == right.0);
        }
        let mut bridge_blocks: Vec<DeclarationBlockId> = Vec::new();
        let mut cursor = self.rules[left.0 as usize].next_in_source;
        let ghost mut q: int = pl;
        while cursor != Some(right)
            invariant
                self.wf(),
                n == self.rules@.len(),
                0 <= pl < n,
                0 <= pr < n,
                pl != pr,
                self.source@[pl] == left.0,
                self.source@[pr] == right.0,
                bound == self.merge_walk_bound(left, right),
                bound == (if pl < pr { pr } else { n as int }),
                pl <= q < n,
                cursor == rule_at(self.source@, q + 1),
                forall|p: int| pl < p <= q ==> !(#[trigger] self.rules@[self.source@[p] as int]).live,
                pl < pr ==> q < pr,
                bridge_blocks@ == self.blocks_at(pl + 1, q + 1),
            decreases n - q,
        {
            proof {
                reveal(AstContext::wf_source);
            }
            let id = match cursor {
                Some(id) => id,
                None => {
                    proof {
                        assert(q + 1 == n);
                        assert(!(pl < pr));
                        assert(self.first_live_between(pl, bound) is None);
                    }
                    return Err(MutationError::InvalidRuleTopology(left));
                },
            };
            proof {
                assert(self.source@[q + 1] == id.0);
                assert(id.0 < n);
                assert(q + 1 != pr);
            }
            if self.rules[id.0 as usize].live {
                proof {
                    assert(q + 1 < bound);
                    assert(self.rules@[self.source@[q + 1] as int].live);
                    let first = self.first_live_between(pl, bound);
                    assert(first is Some);
                    let p = first->0;
                    assert(forall|x: int| pl < x < p ==> !(#[trigger] self.rules@[self.source@[x] as int]).live);
                    assert(self.rules@[self.source@[p] as int].live);
                    if p < q + 1 {
                        assert(!self.rules@[self.source@[p] as int].live);
                    }
                    if p > q + 1 {
                        assert(!self.rules@[self.source@[q + 1] as int].live);
                    }
                    assert(p == q + 1);
                }
                return Err(MutationError::InvalidRuleTopology(id));
            }
            if let Some(block) = self.rules[id.0 as usize].declaration_block {
                bridge_blocks.push(block);
            }
            cursor = self.rules[id.0 as usize].next_in_source;
            proof {
                q = q + 1;
            }
        }
        proof {
            reveal(AstContext::wf_source);
            assert(self.source@[q + 1] == right.0);
            assert(q + 1 == pr);
            assert(self.first_live_between(pl, bound) is None);
        }
        Ok(bridge_blocks)
    }
}

} // verus!

verus! {

impl<R, D> AstContext<R, D> {
    /// The blocks of the rules at source positions `lo..hi` exist, belong to
    /// rules at those positions, and their owners come in increasing source
    /// order, so no block repeats.
    proof fn lemma_blocks_at(&self, lo: int, hi: int)
        requires
            self.wf(),
            0 <= lo <= hi <= self.rules@.len(),
        ensures
            ({
                let bs = self.blocks_at(lo, hi);
                &&& forall|j: int| 0 <= j < bs.len() ==> {
                    let b = #[trigger] bs[j].0 as int;
                    let o = self.declaration_blocks@[b].owner->Rule_0.0 as int;
                    &&& b < self.declaration_blocks@.len()
                    &&& 0 <= o < self.rules@.len()
                    &&& lo <= self.source_pos@[o] < hi
                    &&& self.rules@[o].declaration_block == Some(bs[j])
                }
                &&& forall|i: int, j: int| 0 <= i < j < bs.len() ==>
                    self.source_pos@[self.declaration_blocks@[(#[trigger] bs[i]).0 as int].owner->Rule_0.0 as int]
                        < self.source_pos@[self.declaration_blocks@[(#[trigger] bs[j]).0 as int].owner->Rule_0.0 as int]
            }),
        decreases hi - lo,
    {
        if hi > lo {
            self.lemma_blocks_at(lo, hi - 1);
            reveal(AstContext::wf_source);
            reveal(AstContext::wf_blocks);
            reveal(AstContext::wf_sizes);
            let x = self.source@[hi - 1];
            assert(x < self.rules@.len());
            assert(self.source_pos@[x as int] == hi - 1);
            if let Some(b) = self.rules@[x as int].declaration_block {
                assert(self.chains@[b.0 as int] == self.chains@[b.0 as int]);
                assert(self.declaration_blocks@[b.0 as int].owner == DeclarationBlockOwner::Rule(RuleId(x)));
            }
        }
    }

    /// Unfolding the concatenated chains of a suffix of `s`.
    proof fn lemma_concat_chains_step(&self, s: Seq<DeclarationBlockId>, k: int)
        requires
            0 <= k < s.len(),
        ensures
            self.concat_chains(s.subrange(k, s.len() as int))
                == self.chain(s[k].0 as int) + self.concat_chains(s.subrange(k + 1, s.len() as int)),
    {
        let t = s.subrange(k, s.len() as int);
        assert(t[0] == s[k]);
        assert(t.subrange(1, t.len() as int) =~= s.subrange(k + 1, s.len() as int));
    }

    /// Bumps the revision of block `b`.
    pub(super) fn bump_block_revision(&mut self, b: DeclarationBlockId)
        requires
            old(self).wf(),
            (b.0 as int) < old(self).block_count(),
        ensures
            final(self).wf(),
            final(self).spec_block(b.0 as int) == (DeclarationBlockRecord {
                revision: wrapping_inc(old(self).spec_block(b.0 as int).revision),
                ..old(self).spec_block(b.0 as int)
            }),
            final(self).block_count() == old(self).block_count(),
            forall|x: int| 0 <= x < old(self).block_count() && x != b.0 ==> #[trigger] final(self).spec_block(x) == old(self).spec_block(x),
            forall|x: int| 0 <= x < old(self).block_count() ==> #[trigger] final(self).chain(x) == old(self).chain(x),
            final(self).declaration_count() == old(self).declaration_count(),
            forall|d: int| 0 <= d < old(self).declaration_count() ==> #[trigger] final(self).spec_declaration(d) == old(self).spec_declaration(d),
            final(self).key_count() == old(self).key_count(),
            forall|k: int| 0 <= k < old(self).key_count() ==> #[trigger] final(self).spec_key(k) == old(self).spec_key(k),
            same_rule_side(final(self), old(self)),
    {
        let ghost pre = *self;
        let i = b.0 as usize;
        let mut record = self.declaration_blocks[i];
        record.revision = record.revision.wrapping_add(1);
        self.declaration_blocks.set(i, record);
        proof {
            Self::lemma_frame_source(pre, *self);
            Self::lemma_frame_lists(pre, *self);
            Self::lemma_frame_tree(pre, *self);
            Self::lemma_frame_keys(pre, *self);
            Self::lemma_frame_sizes(pre, *self);
            assert(self.wf_blocks()) by {
                reveal(AstContext::wf_blocks);
                assert forall|x: int| 0 <= x < self.declaration_blocks@.len() implies {
                    let c = #[trigger] self.chains@[x];
                    let rec = self.declaration_blocks@[x];
                    &&& c.len() == rec.declaration_count
                    &&& rec.first_declaration == declaration_at(c, 0)
                    &&& rec.last_declaration == declaration_at(c, c.len() - 1)
                    &&& (rec.owner->Rule_0.0 as int) < self.rules@.len()
                    &&& self.rules@[rec.owner->Rule_0.0 as int].declaration_block == Some(DeclarationBlockId(x as u32))
                    &&& rec.live == self.rules@[rec.owner->Rule_0.0 as int].live
                    &&& (rec.effective_key.0 as int) < self.effective_keys@.len()
                } by {
                    assert(pre.chains@[x] == self.chains@[x]);
                }
            }
            assert(self.lists@.len() == self.rule_lists@.len()) by {
                reveal(AstContext::wf_lists);
            }
        }
    }

    /// Bumps the revision of rule `r`.
    pub(super) fn bump_rule_revision(&mut self, r: RuleId)
        requires
            old(self).wf(),
            (r.0 as int) < old(self).rule_count(),
        ensures
            final(self).wf(),
            final(self).spec_rule(r.0 as int) == (RuleRecord {
                revision: wrapping_inc(old(self).spec_rule(r.0 as int).revision),
                ..old(self).spec_rule(r.0 as int)
            }),
            final(self).rule_count() == old(self).rule_count(),
            forall|x: int| 0 <= x < old(self).rule_count() && x != r.0 ==> #[trigger] final(self).spec_rule(x) == old(self).spec_rule(x),
            forall|x: int| 0 <= x < old(self).rule_count() ==> #[trigger] final(self).spec_rule_span(x) == old(self).spec_rule_span(x),
            final(self).source_seq() == old(self).source_seq(),
            same_lists_except(final(self), old(self), -1),
            same_declaration_side(final(self), old(self)),
    {
        let ghost pre = *self;
        let i = r.0 as usize;
        self.rules[i].revision = self.rules[i].revision.wrapping_add(1);
        proof {
            Self::lemma_frame_source(pre, *self);
            Self::lemma_frame_lists(pre, *self);
            Self::lemma_frame_tree(pre, *self);
            Self::lemma_frame_keys(pre, *self);
            Self::lemma_frame_sizes(pre, *self);
            Self::lemma_frame_blocks(pre, *self);
            assert(self.lists@.len() == self.rule_lists@.len() && self.chains@.len() == self.declaration_blocks@.len()) by {
                reveal(AstContext::wf_lists);
                reveal(AstContext::wf_blocks);
            }
        }
    }
}

} // verus!
