//! Declaration chains: membership, positional lookup and in-place payload
//! replacement.

use super::append::with_next_in_block;
use super::{
    declaration_at, lemma_insert_index, same_declaration_side, same_lists_except, same_rule_side, wrapping_inc, AstContext,
};
use crate::ids::{DeclarationBlockId, DeclarationId, RuleId};
use crate::records::{
    DeclarationBlockRecord, DeclarationOccurrence, DeclarationRecord, MutationError, RuleRecord, DENSE_CAPACITY,
};
use crate::span::Span;
use vstd::prelude::*;

verus! {

impl<R, D> AstContext<R, D> {
    /// Replaces the source span stored beside rule `id`.
    pub fn set_rule_span(&mut self, id: RuleId, span: Span) -> (r: Result<(), MutationError>)
        requires
            old(self).wf(),
        ensures
            final(self).wf(),
            id.0 >= old(self).rule_count() ==> r == Err::<(), MutationError>(MutationError::UnknownRule(id))
                && *final(self) == *old(self),
            id.0 < old(self).rule_count() ==> r is Ok && final(self).spec_rule_span(id.0 as int) == span,
            forall|x: int| 0 <= x < old(self).rule_count() && x != id.0 ==> #[trigger] final(self).spec_rule_span(x)
                == old(self).spec_rule_span(x),
            final(self).rule_count() == old(self).rule_count(),
            forall|x: int| 0 <= x < old(self).rule_count() ==> #[trigger] final(self).spec_rule(x) == old(self).spec_rule(x),
            final(self).source_seq() == old(self).source_seq(),
            same_lists_except(final(self), old(self), -1),
            same_declaration_side(final(self), old(self)),
    {
        proof {
            reveal(AstContext::wf_sizes);
        }
        let i = id.0 as usize;
        if i >= self.rule_spans.len() {
            return Err(MutationError::UnknownRule(id));
        }
        let ghost pre = *self;
        self.rule_spans.set(i, span);
        proof {
            Self::lemma_frame_source(pre, *self);
            Self::lemma_frame_lists(pre, *self);
            Self::lemma_frame_tree(pre, *self);
            Self::lemma_frame_blocks(pre, *self);
            Self::lemma_frame_keys(pre, *self);
            Self::lemma_frame_sizes(pre, *self);
            assert(self.lists@.len() == self.rule_lists@.len() && self.chains@.len() == self.declaration_blocks@.len()) by {
                reveal(AstContext::wf_lists);
                reveal(AstContext::wf_blocks);
            }
        }
        Ok(())
    }

    /// Runs a non-structural transform over the payload of one live rule:
    /// stores what `transform` makes of the payload and bumps the rule's
    /// revision.
    pub fn transform_rule_payload<F: FnOnce(&R) -> R>(&mut self, rule: RuleId, transform: F) -> (r: Result<(), MutationError>)
        requires
            old(self).wf(),
            forall|payload: &R| #[trigger] transform.requires((payload,)),
        ensures
            final(self).wf(),
            rule.0 >= old(self).rule_count() ==> r == Err::<(), MutationError>(MutationError::UnknownRule(rule))
                && *final(self) == *old(self),
            rule.0 < old(self).rule_count() && !old(self).spec_rule(rule.0 as int).live ==>
                r == Err::<(), MutationError>(MutationError::RetiredRule(rule)) && *final(self) == *old(self),
            rule.0 < old(self).rule_count() && old(self).spec_rule(rule.0 as int).live ==> {
                let old_rule = old(self).spec_rule(rule.0 as int);
                let new_rule = final(self).spec_rule(rule.0 as int);
                &&& r is Ok
                &&& transform.ensures((&old_rule.payload,), new_rule.payload)
                &&& new_rule == (RuleRecord { payload: new_rule.payload, revision: wrapping_inc(old_rule.revision), ..old_rule })
            },
            final(self).rule_count() == old(self).rule_count(),
            forall|x: int| 0 <= x < old(self).rule_count() && x != rule.0 ==> #[trigger] final(self).spec_rule(x)
                == old(self).spec_rule(x),
            forall|x: int| 0 <= x < old(self).rule_count() ==> #[trigger] final(self).spec_rule_span(x)
                == old(self).spec_rule_span(x),
            final(self).source_seq() == old(self).source_seq(),
            same_lists_except(final(self), old(self), -1),
            same_declaration_side(final(self), old(self)),
    {
        proof {
            reveal(AstContext::wf_sizes);
        }
        let i = rule.0 as usize;
        if i >= self.rules.len() {
            return Err(MutationError::UnknownRule(rule));
        }
        if !self.rules[i].live {
            return Err(MutationError::RetiredRule(rule));
        }
        let ghost pre = *self;
        let payload = transform(&self.rules[i].payload);
        self.rules[i].payload = payload;
        self.rules[i].revision = self.rules[i].revision.wrapping_add(1);
        proof {
            Self::lemma_frame_source(pre, *self);
            Self::lemma_frame_lists(pre, *self);
            Self::lemma_frame_tree(pre, *self);
            Self::lemma_frame_keys(pre, *self);
            Self::lemma_frame_sizes(pre, *self);
            Self::lemma_frame_blocks(pre, *self);
            assert(self.lists@.len() == self.rule_lists@.len() && self.chains@.len() == self.declaration_blocks@.len()) by {
                reveal(AstContext::wf_lists);
                reveal(AstContext::wf_blocks);
            }
        }
        Ok(())
    }

    /// Whether `declaration` belongs to the chain of `block`, walking the
    /// chain's links.
    fn declaration_chain_contains(&self, block: DeclarationBlockId, declaration: DeclarationId) -> (r: Result<bool, MutationError>)
        requires
            self.wf(),
            (block.0 as int) < self.block_count(),
        ensures
            r == Ok::<bool, MutationError>(self.chain(block.0 as int).contains(declaration.0)),
    {
        let b = block.0 as usize;
        let ghost c = self.chains@[b as int];
        proof {
            reveal(AstContext::wf_blocks);
            reveal(AstContext::wf_sizes);
        }
        let mut current = self.declaration_blocks[b].first_declaration;
        let mut remaining = self.declaration_blocks[b].declaration_count;
        let ghost mut i: int = 0;
        loop
            invariant
                self.wf(),
                (block.0 as int) < self.block_count(),
                c == self.chains@[b as int],
                b == block.0,
                0 <= i <= c.len(),
                remaining == c.len() - i,
                current == declaration_at(c, i),
                forall|j: int| 0 <= j < i ==> c[j] != declaration.0,
            decreases c.len() - i,
        {
            proof {
                reveal(AstContext::wf_blocks);
            }
            let current_id = match current {
                None => {
                    proof {
                        assert(!c.contains(declaration.0));
                    }
                    if remaining != 0 {
                        return Err(MutationError::InvalidDeclarationChain(block));
                    }
                    return Ok(false);
                },
                Some(current_id) => current_id,
            };
            if remaining == 0 {
                return Err(MutationError::InvalidDeclarationChain(block));
            }
            if current_id == declaration {
                proof {
                    assert(c[i] == declaration.0);
                }
                return Ok(true);
            }
            proof {
                assert(c[i] < self.declarations@.len());
            }
            let d = current_id.0 as usize;
            current = self.declarations[d].next_in_block;
            remaining = remaining - 1;
            proof {
                i = i + 1;
            }
        }
    }
}

} // verus!

verus! {

/// `rec` with payload `payload`.
pub open spec fn with_payload<D>(rec: DeclarationRecord<D>, payload: D) -> DeclarationRecord<D> {
    DeclarationRecord { payload, ..rec }
}

impl<R, D> AstContext<R, D> {
    /// What a payload operation on `declaration` through `block` fails with,
    /// if anything: the block must be live and hold the declaration.
    pub open spec fn spec_chain_member_error(old: &Self, block: DeclarationBlockId, declaration: DeclarationId) -> Option<MutationError> {
        if block.0 >= old.block_count() || !old.spec_block(block.0 as int).live {
            Some(MutationError::UnknownDeclarationBlock(block))
        } else if !old.chain(block.0 as int).contains(declaration.0) {
            Some(MutationError::UnknownDeclaration(declaration))
        } else {
            None
        }
    }

    /// `self` is `old` with declaration `declaration` carrying `payload` and
    /// `block` one revision on.
    pub open spec fn is_payload_replacement_of(&self, old: &Self, block: DeclarationBlockId, declaration: DeclarationId, payload: D) -> bool {
        let b = block.0 as int;
        let d = declaration.0 as int;
        &&& self.declaration_count() == old.declaration_count()
        &&& self.spec_declaration(d) == with_payload(old.spec_declaration(d), payload)
        &&& forall|x: int| 0 <= x < old.declaration_count() && x != d ==> #[trigger] self.spec_declaration(x) == old.spec_declaration(x)
        &&& self.spec_block(b) == (DeclarationBlockRecord { revision: wrapping_inc(old.spec_block(b).revision), ..old.spec_block(b) })
        &&& self.block_count() == old.block_count()
        &&& forall|x: int| 0 <= x < old.block_count() && x != b ==> #[trigger] self.spec_block(x) == old.spec_block(x)
        &&& forall|x: int| 0 <= x < old.block_count() ==> #[trigger] self.chain(x) == old.chain(x)
        &&& self.key_count() == old.key_count()
        &&& forall|k: int| 0 <= k < old.key_count() ==> #[trigger] self.spec_key(k) == old.spec_key(k)
        &&& same_rule_side(self, old)
    }

    /// Stores `payload` in declaration `d` of block `b` and bumps the block's
    /// revision; returns the previous payload.
    fn swap_payload(&mut self, b: usize, d: usize, payload: D) -> (r: D)
        requires
            old(self).wf(),
            b < old(self).block_count(),
            old(self).chain(b as int).contains(d as u32),
            d < u32::MAX,
        ensures
            final(self).wf(),
            r == old(self).spec_declaration(d as int).payload,
            final(self).is_payload_replacement_of(old(self), DeclarationBlockId(b as u32), DeclarationId(d as u32), payload),
    {
        let ghost pre = *self;
        proof {
            reveal(AstContext::wf_blocks);
            reveal(AstContext::wf_sizes);
            let c = self.chains@[b as int];
            let k = choose|k: int| 0 <= k < c.len() && c[k] == d as u32;
            assert(c[k] < self.declarations@.len());
        }
        let mut value = payload;
        std::mem::swap(&mut self.declarations[d].payload, &mut value);
        let mut record = self.declaration_blocks[b];
        record.revision = record.revision.wrapping_add(1);
        self.declaration_blocks.set(b, record);
        proof {
            Self::lemma_frame_source(pre, *self);
            Self::lemma_frame_lists(pre, *self);
            Self::lemma_frame_tree(pre, *self);
            Self::lemma_frame_keys(pre, *self);
            Self::lemma_frame_sizes(pre, *self);
            assert(self.wf_blocks()) by {
                reveal(AstContext::wf_blocks);
                assert forall|x: int| 0 <= x < self.declaration_blocks@.len() implies {
                    let c = #[trigger] self.chains@[x];
                    let rec = self.declaration_blocks@[x];
                    &&& c.len() == rec.declaration_count
                    &&& rec.first_declaration == declaration_at(c, 0)
                    &&& rec.last_declaration == declaration_at(c, c.len() - 1)
                    &&& (rec.owner->Rule_0.0 as int) < self.rules@.len()
                    &&& self.rules@[rec.owner->Rule_0.0 as int].declaration_block == Some(DeclarationBlockId(x as u32))
                    &&& rec.live == self.rules@[rec.owner->Rule_0.0 as int].live
                    &&& (rec.effective_key.0 as int) < self.effective_keys@.len()
                } by {
                    assert(pre.chains@[x] == self.chains@[x]);
                }
                assert forall|x: int, i: int| 0 <= x < self.declaration_blocks@.len() && 0 <= i < self.chains@[x].len() implies {
                    let dd = #[trigger] self.chains@[x][i];
                    &&& dd < self.declarations@.len()
                    &&& self.decl_owner@[dd as int] == x
                    &&& self.decl_pos@[dd as int] == i
                    &&& self.declarations@[dd as int].next_in_block == declaration_at(self.chains@[x], i + 1)
                } by {
                    assert(pre.chains@[x][i] < pre.declarations@.len());
                }
            }
            assert(self.lists@.len() == self.rule_lists@.len()) by {
                reveal(AstContext::wf_lists);
            }
        }
        value
    }

    /// Replaces one declaration payload through its owning block and bumps
    /// the block's revision; returns the previous payload.
    pub fn replace_declaration(&mut self, block: DeclarationBlockId, declaration: DeclarationId, replacement: D) -> (r: Result<D, MutationError>)
        requires
            old(self).wf(),
        ensures
            final(self).wf(),
            Self::spec_chain_member_error(old(self), block, declaration) matches Some(e) ==>
                r == Err::<D, MutationError>(e) && *final(self) == *old(self),
            Self::spec_chain_member_error(old(self), block, declaration) is None ==>
                r == Ok::<D, MutationError>(old(self).spec_declaration(declaration.0 as int).payload)
                && final(self).is_payload_replacement_of(old(self), block, declaration, replacement),
    {
        let b = block.0 as usize;
        if b >= self.declaration_blocks.len() || !self.declaration_blocks[b].live {
            return Err(MutationError::UnknownDeclarationBlock(block));
        }
        match self.declaration_chain_contains(block, declaration) {
            Err(e) => {
                return Err(e);
            },
            Ok(false) => {
                return Err(MutationError::UnknownDeclaration(declaration));
            },
            Ok(true) => {},
        }
        proof {
            reveal(AstContext::wf_sizes);
            reveal(AstContext::wf_blocks);
            let c = self.chains@[b as int];
            let k = choose|k: int| 0 <= k < c.len() && c[k] == declaration.0;
            assert(c[k] < self.declarations@.len());
        }
        Ok(self.swap_payload(b, declaration.0 as usize, replacement))
    }
}

} // verus!

verus! {

impl<R, D> AstContext<R, D> {
    /// Position of declaration `d` in its chain.
    pub closed spec fn chain_position(&self, d: int) -> int {
        self.decl_pos@[d]
    }

    /// A member of a block's chain is a stored declaration and sits at its
    /// chain position; every position of the chain is the chain position of
    /// the declaration there.
    pub proof fn lemma_chain_position(&self, b: int, d: u32)
        requires
            self.wf(),
            0 <= b < self.block_count(),
            self.chain(b).contains(d),
        ensures
            (d as int) < self.declaration_count(),
            0 <= self.chain_position(d as int) < self.chain(b).len(),
            self.chain(b)[self.chain_position(d as int)] == d,
            forall|i: int| 0 <= i < self.chain(b).len() ==> self.chain_position((#[trigger] self.chain(b)[i]) as int) == i,
    {
        self.lemma_chain_member(b, d);
    }

    /// A member of a chain sits at its chain position.
    proof fn lemma_chain_member(&self, b: int, d: u32)
        requires
            self.wf(),
            0 <= b < self.declaration_blocks@.len(),
            self.chains@[b].contains(d),
        ensures
            (d as int) < self.declarations@.len(),
            self.decl_owner@[d as int] == b,
            0 <= self.decl_pos@[d as int] < self.chains@[b].len(),
            self.chains@[b][self.decl_pos@[d as int]] == d,
            self.declarations@.len() <= DENSE_CAPACITY,
            self.chains@[b].len() == self.declaration_blocks@[b].declaration_count,
            self.chains@.len() == self.declaration_blocks@.len(),
            self.lists@.len() == self.rule_lists@.len(),
            forall|i: int| 0 <= i < self.chains@[b].len() ==> self.decl_pos@[(#[trigger] self.chains@[b][i]) as int] == i,
    {
        reveal(AstContext::wf_blocks);
        reveal(AstContext::wf_lists);
        reveal(AstContext::wf_sizes);
        let c = self.chains@[b];
        let k = choose|k: int| 0 <= k < c.len() && c[k] == d;
        assert(c[k] < self.declarations@.len());
    }

    /// Stores a new declaration and links it right after `tail` in the chain
    /// of block `b`.
    fn insert_declaration_after(&mut self, b: usize, tail: DeclarationId, payload: D, important: bool) -> (r: DeclarationId)
        requires
            old(self).wf(),
            b < old(self).block_count(),
            old(self).chain(b as int).contains(tail.0),
            old(self).declaration_count() < DENSE_CAPACITY,
            old(self).chain(b as int).len() < u32::MAX,
        ensures
            final(self).wf(),
            r == DeclarationId(old(self).declaration_count() as u32),
            final(self).chain(b as int) == old(self).chain(b as int).insert(old(self).chain_position(tail.0 as int) + 1,
                old(self).declaration_count() as u32),
            final(self).declaration_count() == old(self).declaration_count() + 1,
            final(self).spec_declaration(old(self).declaration_count() as int).payload == payload,
            final(self).spec_declaration(old(self).declaration_count() as int).important == important,
            forall|x: int| 0 <= x < old(self).declaration_count() ==> {
                &&& (#[trigger] final(self).spec_declaration(x)).payload == old(self).spec_declaration(x).payload
                &&& final(self).spec_declaration(x).important == old(self).spec_declaration(x).important
            },
            final(self).spec_block(b as int).revision == old(self).spec_block(b as int).revision,
            final(self).spec_block(b as int).live == old(self).spec_block(b as int).live,
            final(self).spec_block(b as int).owner == old(self).spec_block(b as int).owner,
            final(self).spec_block(b as int).effective_key == old(self).spec_block(b as int).effective_key,
            final(self).block_count() == old(self).block_count(),
            forall|x: int| 0 <= x < old(self).block_count() && x != b ==> #[trigger] final(self).spec_block(x) == old(self).spec_block(x),
            forall|x: int| 0 <= x < old(self).block_count() && x != b ==> #[trigger] final(self).chain(x) == old(self).chain(x),
            final(self).key_count() == old(self).key_count(),
            forall|k: int| 0 <= k < old(self).key_count() ==> #[trigger] final(self).spec_key(k) == old(self).spec_key(k),
            same_rule_side(final(self), old(self)),
    {
        let ghost pre = *self;
        proof {
            self.lemma_chain_member(b as int, tail.0);
        }
        let t = tail.0 as usize;
        let id = DeclarationId(self.declarations.len() as u32);
        let successor = self.declarations[t].next_in_block;
        self.declarations.push(DeclarationRecord { payload, next_in_block: successor, important });
        self.declarations[t].next_in_block = Some(id);
        let mut record = self.declaration_blocks[b];
        if record.last_declaration == Some(tail) {
            record.last_declaration = Some(id);
        }
        record.declaration_count = record.declaration_count + 1;
        self.declaration_blocks.set(b, record);
        proof {
            let c = pre.chains@[b as int];
            let q = pre.decl_pos@[tail.0 as int];
            let nd = pre.declarations@.len();
            self.chains@ = pre.chains@.update(b as int, c.insert(q + 1, nd as u32));
            self.decl_owner@ = pre.decl_owner@.push(b as int);
            self.decl_pos@ = Seq::new(nd + 1, |x: int| if x == nd { q + 1 } else if pre.decl_owner@[x] == b as int
                && pre.decl_pos@[x] > q {
                pre.decl_pos@[x] + 1
            } else {
                pre.decl_pos@[x]
            });
            Self::lemma_insert_declaration_step(pre, *self, b as int, tail, payload, important);
        }
        id
    }

    /// A declaration insertion step keeps the context well formed.
    proof fn lemma_insert_declaration_step(pre: Self, post: Self, b: int, tail: DeclarationId, payload: D, important: bool)
        requires
            pre.wf(),
            0 <= b < pre.declaration_blocks@.len(),
            pre.chains@[b].contains(tail.0),
            pre.declarations@.len() < DENSE_CAPACITY,
            pre.chains@[b].len() < u32::MAX,
            ({
                let nd = pre.declarations@.len();
                let id = DeclarationId(nd as u32);
                let c = pre.chains@[b];
                let q = pre.decl_pos@[tail.0 as int];
                let t = tail.0 as int;
                let ob = pre.declaration_blocks@[b];
                let step1 = pre.declarations@.push(DeclarationRecord {
                    payload,
                    next_in_block: pre.declarations@[t].next_in_block,
                    important,
                });
                &&& post.declarations@ == step1.update(t, with_next_in_block(step1[t], Some(id)))
                &&& post.declaration_blocks@ == pre.declaration_blocks@.update(b, DeclarationBlockRecord {
                    last_declaration: if ob.last_declaration == Some(tail) { Some(id) } else { ob.last_declaration },
                    declaration_count: (ob.declaration_count + 1) as u32,
                    ..ob
                })
                &&& post.chains@ == pre.chains@.update(b, c.insert(q + 1, nd as u32))
                &&& post.decl_owner@ == pre.decl_owner@.push(b)
                &&& post.decl_pos@ == Seq::new(nd + 1, |x: int| if x == nd { q + 1 } else if pre.decl_owner@[x] == b
                    && pre.decl_pos@[x] > q {
                    pre.decl_pos@[x] + 1
                } else {
                    pre.decl_pos@[x]
                })
            }),
            post.rules@ == pre.rules@,
            post.rule_spans@ == pre.rule_spans@,
            post.rule_lists@ == pre.rule_lists@,
            post.effective_keys@ == pre.effective_keys@,
            post.effective_key_ids == pre.effective_key_ids,
            post.stylesheet == pre.stylesheet,
            post.license_comments@ == pre.license_comments@,
            post.first_rule_in_source == pre.first_rule_in_source,
            post.last_rule_in_source == pre.last_rule_in_source,
            post.source@ == pre.source@,
            post.source_pos@ == pre.source_pos@,
            post.lists@ == pre.lists@,
            post.list_pos@ == pre.list_pos@,
        ensures
            post.wf(),
    {
        pre.lemma_chain_member(b, tail.0);
        reveal(AstContext::wf_blocks);
        reveal(AstContext::wf_sizes);
        let nb = pre.declaration_blocks@.len();
        let nd = pre.declarations@.len();
        let id = DeclarationId(nd as u32);
        let c = pre.chains@[b];
        let q = pre.decl_pos@[tail.0 as int];
        let t = tail.0 as int;
        let c2 = c.insert(q + 1, nd as u32);
        lemma_insert_index(c, q + 1, nd as u32);
        assert(c[q] == tail.0);
        Self::lemma_frame_source(pre, post);
        Self::lemma_frame_lists(pre, post);
        Self::lemma_frame_tree(pre, post);
        Self::lemma_frame_keys(pre, post);
        assert forall|x: int| 0 <= x < nb implies {
            let cc = #[trigger] post.chains@[x];
            let rec = post.declaration_blocks@[x];
            &&& cc.len() == rec.declaration_count
            &&& rec.first_declaration == declaration_at(cc, 0)
            &&& rec.last_declaration == declaration_at(cc, cc.len() - 1)
            &&& (rec.owner->Rule_0.0 as int) < post.rules@.len()
            &&& post.rules@[rec.owner->Rule_0.0 as int].declaration_block == Some(DeclarationBlockId(x as u32))
            &&& rec.live == post.rules@[rec.owner->Rule_0.0 as int].live
            &&& (rec.effective_key.0 as int) < post.effective_keys@.len()
        } by {
            if x == b {
                assert(post.chains@[x] == c2);
                assert(c2[0] == c[0]);
                if q + 1 == c.len() {
                    assert(c2[c2.len() - 1] == nd as u32);
                } else {
                    assert(c2[c2.len() - 1] == c[c.len() - 1]);
                    assert(pre.decl_pos@[c[c.len() - 1] as int] == c.len() - 1);
                }
            } else {
                assert(post.chains@[x] == pre.chains@[x]);
                assert(post.declaration_blocks@[x] == pre.declaration_blocks@[x]);
            }
        }
        assert forall|x: int, i: int| 0 <= x < nb && 0 <= i < post.chains@[x].len() implies {
            let dd = #[trigger] post.chains@[x][i];
            &&& dd < post.declarations@.len()
            &&& post.decl_owner@[dd as int] == x
            &&& post.decl_pos@[dd as int] == i
            &&& post.declarations@[dd as int].next_in_block == declaration_at(post.chains@[x], i + 1)
        } by {
            if x == b {
                assert(post.chains@[x] == c2);
                if i < q + 1 {
                    assert(c2[i] == c[i]);
                    assert(c[i] < nd);
                    assert(pre.decl_pos@[c[i] as int] == i);
                    if i + 1 < q + 1 {
                        assert(c2[i + 1] == c[i + 1]);
                    }
                } else if i == q + 1 {
                    if q + 1 < c.len() {
                        assert(c2[i + 1] == c[q + 1]);
                    }
                } else {
                    assert(c2[i] == c[i - 1]);
                    assert(c[i - 1] < nd);
                    assert(pre.decl_pos@[c[i - 1] as int] == i - 1);
                    if i + 1 < c2.len() {
                        assert(c2[i + 1] == c[i]);
                    }
                }
            } else {
                let dd = pre.chains@[x][i];
                assert(post.chains@[x] == pre.chains@[x]);
                assert(dd < nd && pre.decl_owner@[dd as int] == x);
            }
        }
        assert forall|d: int| 0 <= d < nd + 1 implies {
            let x = #[trigger] post.decl_owner@[d];
            &&& 0 <= x < nb
            &&& 0 <= post.decl_pos@[d] < post.chains@[x].len()
            &&& post.chains@[x][post.decl_pos@[d]] == d
        } by {
            if d < nd {
                let x = pre.decl_owner@[d];
                if x == b {
                    let k = pre.decl_pos@[d];
                    assert(c[k] == d);
                    if k > q {
                        assert(c2[k + 1] == c[k]);
                    } else {
                        assert(c2[k] == c[k]);
                    }
                } else {
                    assert(post.chains@[x] == pre.chains@[x]);
                }
            }
        }
        assert(post.wf_blocks());
        assert(post.wf_sizes());
    }
}

} // verus!

verus! {

impl<R, D> AstContext<R, D> {
    /// Stores `payload` and `important` in declaration `d` of block `b`;
    /// returns the previous payload.
    fn rewrite_declaration_record(&mut self, b: usize, d: usize, payload: D, important: bool) -> (r: D)
        requires
            old(self).wf(),
            b < old(self).block_count(),
            old(self).chain(b as int).contains(d as u32),
            d < u32::MAX,
        ensures
            final(self).wf(),
            r == old(self).spec_declaration(d as int).payload,
            final(self).declaration_count() == old(self).declaration_count(),
            final(self).spec_declaration(d as int).payload == payload,
            final(self).spec_declaration(d as int).important == important,
            forall|x: int| 0 <= x < old(self).declaration_count() && x != d ==> #[trigger] final(self).spec_declaration(x)
                == old(self).spec_declaration(x),
            final(self).block_count() == old(self).block_count(),
            forall|x: int| 0 <= x < old(self).block_count() ==> #[trigger] final(self).spec_block(x) == old(self).spec_block(x),
            forall|x: int| 0 <= x < old(self).block_count() ==> #[trigger] final(self).chain(x) == old(self).chain(x),
            final(self).key_count() == old(self).key_count(),
            forall|k: int| 0 <= k < old(self).key_count() ==> #[trigger] final(self).spec_key(k) == old(self).spec_key(k),
            same_rule_side(final(self), old(self)),
    {
        let ghost pre = *self;
        proof {
            self.lemma_chain_member(b as int, d as u32);
        }
        let mut value = payload;
        std::mem::swap(&mut self.declarations[d].payload, &mut value);
        self.declarations[d].important = important;
        proof {
            Self::lemma_frame_source(pre, *self);
            Self::lemma_frame_lists(pre, *self);
            Self::lemma_frame_tree(pre, *self);
            Self::lemma_frame_keys(pre, *self);
            Self::lemma_frame_sizes(pre, *self);
            Self::lemma_frame_blocks(pre, *self);
        }
        value
    }

    /// What replacing `declaration` of `block` by `count` declarations returns.
    pub open spec fn spec_replace_with_sequence_error(old: &Self, block: DeclarationBlockId, declaration: DeclarationId, count: nat) -> Option<MutationError> {
        let b = block.0 as int;
        if block.0 >= old.block_count() || !old.spec_block(b).live {
            Some(MutationError::UnknownDeclarationBlock(block))
        } else if count == 0 || old.spec_block(b).declaration_count + (count - 1) > u32::MAX {
            Some(MutationError::InvalidDeclarationChain(block))
        } else if !old.chain(b).contains(declaration.0) {
            Some(MutationError::UnknownDeclaration(declaration))
        } else if old.declaration_count() + (count - 1) > DENSE_CAPACITY {
            Some(MutationError::DeclarationCapacityExhausted)
        } else {
            None
        }
    }

    /// `self` is `old` with `declaration` of `block` replaced in place by the
    /// sequence `replacements`: its record takes the first, and new records
    /// for the others follow it in the chain.
    pub open spec fn is_sequence_replacement_of(&self, old: &Self, block: DeclarationBlockId, declaration: DeclarationId, replacements: Seq<(D, bool)>) -> bool {
        let b = block.0 as int;
        let d = declaration.0 as int;
        let c = old.chain(b);
        let p = old.chain_position(d);
        let nd = old.declaration_count();
        let extra = (replacements.len() - 1) as nat;
        &&& self.chain(b) == c.subrange(0, p + 1) + Seq::new(extra, |i: int| (nd + i) as u32) + c.subrange(p + 1, c.len() as int)
        &&& self.declaration_count() == nd + extra
        &&& self.spec_declaration(d).payload == replacements[0].0
        &&& self.spec_declaration(d).important == replacements[0].1
        &&& forall|i: int| 0 <= i < extra ==> (#[trigger] self.spec_declaration(nd + i)).payload == replacements[i + 1].0
            && self.spec_declaration(nd + i).important == replacements[i + 1].1
        &&& forall|x: int| 0 <= x < nd && x != d ==> (#[trigger] self.spec_declaration(x)).payload == old.spec_declaration(x).payload
            && self.spec_declaration(x).important == old.spec_declaration(x).important
        &&& self.spec_block(b).revision == wrapping_inc(old.spec_block(b).revision)
        &&& self.spec_block(b).live == old.spec_block(b).live
        &&& self.spec_block(b).owner == old.spec_block(b).owner
        &&& self.spec_block(b).effective_key == old.spec_block(b).effective_key
        &&& self.block_count() == old.block_count()
        &&& forall|x: int| 0 <= x < old.block_count() && x != b ==> #[trigger] self.spec_block(x) == old.spec_block(x)
        &&& forall|x: int| 0 <= x < old.block_count() && x != b ==> #[trigger] self.chain(x) == old.chain(x)
        &&& self.key_count() == old.key_count()
        &&& forall|k: int| 0 <= k < old.key_count() ==> #[trigger] self.spec_key(k) == old.spec_key(k)
        &&& same_rule_side(self, old)
    }

    /// Replaces one declaration at its chain position with a nonempty
    /// sequence and bumps the block's revision once; returns the replaced
    /// payload.
    ///
    /// Membership, count overflow and capacity are checked before anything
    /// changes. The replaced declaration's identity is reused for the first
    /// replacement.
    pub fn replace_declaration_with_sequence(
        &mut self,
        block: DeclarationBlockId,
        declaration: DeclarationId,
        replacements: Vec<(D, bool)>,
    ) -> (r: Result<D, MutationError>)
        requires
            old(self).wf(),
        ensures
            final(self).wf(),
            Self::spec_replace_with_sequence_error(old(self), block, declaration, replacements@.len()) matches Some(e)
                ==> r == Err::<D, MutationError>(e) && *final(self) == *old(self),
            Self::spec_replace_with_sequence_error(old(self), block, declaration, replacements@.len()) is None
                ==> r == Ok::<D, MutationError>(old(self).spec_declaration(declaration.0 as int).payload)
                && final(self).is_sequence_replacement_of(old(self), block, declaration, replacements@),
    {
        let b = block.0 as usize;
        if b >= self.declaration_blocks.len() || !self.declaration_blocks[b].live {
            return Err(MutationError::UnknownDeclarationBlock(block));
        }
        if replacements.len() == 0 {
            return Err(MutationError::InvalidDeclarationChain(block));
        }
        let additional = replacements.len() - 1;
        let count = self.declaration_blocks[b].declaration_count;
        if additional > (u32::MAX - count) as usize {
            return Err(MutationError::InvalidDeclarationChain(block));
        }
        match self.declaration_chain_contains(block, declaration) {
            Err(e) => {
                return Err(e);
            },
            Ok(false) => {
                return Err(MutationError::UnknownDeclaration(declaration));
            },
            Ok(true) => {},
        }
        proof {
            self.lemma_chain_member(b as int, declaration.0);
        }
        if additional > DENSE_CAPACITY - self.declarations.len() {
            return Err(MutationError::DeclarationCapacityExhausted);
        }
        let ghost pre = *self;
        let ghost reps = replacements@;
        let ghost c = self.chain(b as int);
        let ghost p = self.chain_position(declaration.0 as int);
        let ghost nd = self.declaration_count();
        let mut replacements = replacements;
        let (first_payload, first_important) = replacements.remove(0);
        let previous = self.rewrite_declaration_record(b, declaration.0 as usize, first_payload, first_important);
        let mut tail = declaration;
        let mut k: usize = 0;
        proof {
            assert(c.subrange(0, p + 1) + Seq::new(0nat, |i: int| (nd + i) as u32) + c.subrange(p + 1, c.len() as int) =~= c);
            pre.lemma_chain_member(b as int, declaration.0);
            assert(c[p] == declaration.0);
            assert(self.chain(b as int)[p] == declaration.0);
            self.lemma_chain_member(b as int, declaration.0);
        }
        while replacements.len() > 0
            invariant
                self.wf(),
                b < self.block_count(),
                b == block.0,
                k <= additional,
                additional == reps.len() - 1,
                replacements@ == reps.subrange(k + 1, reps.len() as int),
                nd + additional <= DENSE_CAPACITY,
                c.len() + additional <= u32::MAX,
                self.declaration_count() == nd + k,
                self.chain(b as int) == c.subrange(0, p + 1) + Seq::new(k as nat, |i: int| (nd + i) as u32)
                    + c.subrange(p + 1, c.len() as int),
                tail.0 == (if k == 0 { declaration.0 as int } else { nd + k - 1 }),
                0 <= p < c.len(),
                (declaration.0 as int) < nd,
                self.chain(b as int)[p + k] == tail.0,
                self.chain_position(tail.0 as int) == p + k,
                self.spec_declaration(declaration.0 as int).payload == reps[0].0,
                self.spec_declaration(declaration.0 as int).important == reps[0].1,
                forall|i: int| 0 <= i < k ==> (#[trigger] self.spec_declaration(nd + i)).payload == reps[i + 1].0
                    && self.spec_declaration(nd + i).important == reps[i + 1].1,
                forall|x: int| 0 <= x < nd && x != declaration.0 ==> (#[trigger] self.spec_declaration(x)).payload
                    == pre.spec_declaration(x).payload && self.spec_declaration(x).important == pre.spec_declaration(x).important,
                self.spec_block(b as int).revision == pre.spec_block(b as int).revision,
                self.spec_block(b as int).live == pre.spec_block(b as int).live,
                self.spec_block(b as int).owner == pre.spec_block(b as int).owner,
                self.spec_block(b as int).effective_key == pre.spec_block(b as int).effective_key,
                self.block_count() == pre.block_count(),
                forall|x: int| 0 <= x < pre.block_count() && x != b ==> #[trigger] self.spec_block(x) == pre.spec_block(x),
                forall|x: int| 0 <= x < pre.block_count() && x != b ==> #[trigger] self.chain(x) == pre.chain(x),
                self.key_count() == pre.key_count(),
                forall|x: int| 0 <= x < pre.key_count() ==> #[trigger] self.spec_key(x) == pre.spec_key(x),
                same_rule_side(self, &pre),
            decreases replacements.len(),
        {
            let (payload, important) = replacements.remove(0);
            let ghost cur = *self;
            proof {
                assert(self.chain(b as int).len() == c.len() + k);
                assert(self.chain(b as int).contains(tail.0));
            }
            tail = self.insert_declaration_after(b, tail, payload, important);
            proof {
                let before = c.subrange(0, p + 1);
                let after = c.subrange(p + 1, c.len() as int);
                let mid_old = Seq::new(k as nat, |i: int| (nd + i) as u32);
                let mid_new = Seq::new((k + 1) as nat, |i: int| (nd + i) as u32);
                assert((before + mid_old + after).insert(p + k + 1, (nd + k) as u32) =~= before + mid_new + after);
                assert(self.chain(b as int)[p + k + 1] == tail.0);
                self.lemma_chain_member(b as int, tail.0);
                assert(self.chains@[b as int][p + k + 1] == tail.0);
                assert(self.chain_position(tail.0 as int) == p + k + 1);
                assert(self.spec_declaration(declaration.0 as int).payload == cur.spec_declaration(declaration.0 as int).payload);
                assert(self.spec_declaration(declaration.0 as int).important == cur.spec_declaration(declaration.0 as int).important);
                assert forall|x: int| 0 <= x < nd && x != declaration.0 implies (#[trigger] self.spec_declaration(x)).payload
                    == pre.spec_declaration(x).payload && self.spec_declaration(x).important == pre.spec_declaration(x).important by {
                    assert(cur.spec_declaration(x).payload == pre.spec_declaration(x).payload);
                }
                assert forall|i: int| 0 <= i < k + 1 implies (#[trigger] self.spec_declaration(nd + i)).payload == reps[i + 1].0
                    && self.spec_declaration(nd + i).important == reps[i + 1].1 by {
                    if i < k {
                        assert(cur.spec_declaration(nd + i).payload == reps[i + 1].0);
                    } else {
                        assert(reps.subrange(k + 1, reps.len() as int)[0] == reps[k + 1]);
                    }
                }
            }
            k = k + 1;
        }
        self.bump_block_revision(block);
        Ok(previous)
    }
}

} // verus!

verus! {

impl<R, D> AstContext<R, D> {
    /// `post` is `pre` with only the payload of declaration `d` written.
    closed spec fn is_payload_write(pre: Self, post: Self, b: int, d: int) -> bool {
        &&& pre.wf()
        &&& 0 <= d < pre.declarations@.len()
        &&& post.declarations@.len() == pre.declarations@.len()
        &&& forall|x: int| 0 <= x < pre.declarations@.len() && x != d ==> #[trigger] post.declarations@[x] == pre.declarations@[x]
        &&& post.declarations@[d].next_in_block == pre.declarations@[d].next_in_block
        &&& post.declarations@[d].important == pre.declarations@[d].important
        &&& post.rules@ == pre.rules@
        &&& post.rule_spans@ == pre.rule_spans@
        &&& post.rule_lists@ == pre.rule_lists@
        &&& 0 <= b < pre.declaration_blocks@.len()
        &&& post.declaration_blocks@ == pre.declaration_blocks@.update(b, DeclarationBlockRecord {
            revision: wrapping_inc(pre.declaration_blocks@[b].revision),
            ..pre.declaration_blocks@[b]
        })
        &&& post.effective_keys@ == pre.effective_keys@
        &&& post.effective_key_ids == pre.effective_key_ids
        &&& post.stylesheet == pre.stylesheet
        &&& post.first_rule_in_source == pre.first_rule_in_source
        &&& post.last_rule_in_source == pre.last_rule_in_source
        &&& post.source@ == pre.source@
        &&& post.source_pos@ == pre.source_pos@
        &&& post.lists@ == pre.lists@
        &&& post.list_pos@ == pre.list_pos@
        &&& post.chains@ == pre.chains@
        &&& post.decl_owner@ == pre.decl_owner@
        &&& post.decl_pos@ == pre.decl_pos@
    }

    /// Writing the payload of one declaration keeps the context well formed.
    proof fn lemma_payload_write(pre: Self, post: Self, b: int, d: int)
        requires
            Self::is_payload_write(pre, post, b, d),
        ensures
            post.wf(),
    {
        Self::lemma_frame_source(pre, post);
        Self::lemma_frame_lists(pre, post);
        Self::lemma_frame_tree(pre, post);
        Self::lemma_frame_keys(pre, post);
        Self::lemma_frame_sizes(pre, post);
        assert(post.wf_blocks()) by {
            reveal(AstContext::wf_blocks);
            assert forall|x: int| 0 <= x < post.declaration_blocks@.len() implies {
                let c = #[trigger] post.chains@[x];
                let rec = post.declaration_blocks@[x];
                &&& c.len() == rec.declaration_count
                &&& rec.first_declaration == declaration_at(c, 0)
                &&& rec.last_declaration == declaration_at(c, c.len() - 1)
                &&& (rec.owner->Rule_0.0 as int) < post.rules@.len()
                &&& post.rules@[rec.owner->Rule_0.0 as int].declaration_block == Some(DeclarationBlockId(x as u32))
                &&& rec.live == post.rules@[rec.owner->Rule_0.0 as int].live
                &&& (rec.effective_key.0 as int) < post.effective_keys@.len()
            } by {
                assert(pre.chains@[x] == post.chains@[x]);
            }
            assert forall|x: int, i: int| 0 <= x < post.declaration_blocks@.len() && 0 <= i < post.chains@[x].len() implies {
                let dd = #[trigger] post.chains@[x][i];
                &&& dd < post.declarations@.len()
                &&& post.decl_owner@[dd as int] == x
                &&& post.decl_pos@[dd as int] == i
                &&& post.declarations@[dd as int].next_in_block == declaration_at(post.chains@[x], i + 1)
            } by {
                assert(pre.chains@[x][i] < pre.declarations@.len());
            }
        }
    }

    /// Mutable access to the payload of an occurrence created by
    /// [`Self::declaration_occurrences_in_block`], without rescanning the
    /// chain; bumps the block's revision.
    ///
    /// The occurrence's block must still be live: folding into that block
    /// keeps the occurrence valid, retiring the block invalidates it.
    pub fn validated_declaration_mut(&mut self, occurrence: DeclarationOccurrence) -> (r: Result<(&mut D, bool), MutationError>)
        requires
            old(self).wf(),
        ensures
            ({
                let b = occurrence.block.0 as int;
                let d = occurrence.declaration.0 as int;
                &&& (occurrence.block.0 >= old(self).block_count() || !old(self).spec_block(b).live) ==>
                    r is Err && r->Err_0 == MutationError::UnknownDeclarationBlock(occurrence.block)
                &&& (occurrence.block.0 < old(self).block_count() && old(self).spec_block(b).live
                    && occurrence.declaration.0 >= old(self).declaration_count()) ==>
                    r is Err && r->Err_0 == MutationError::UnknownDeclaration(occurrence.declaration)
                &&& (occurrence.block.0 < old(self).block_count() && old(self).spec_block(b).live
                    && occurrence.declaration.0 < old(self).declaration_count()) ==> r is Ok
                &&& r is Ok ==> occurrence.block.0 < old(self).block_count() && old(self).spec_block(b).live
                    && occurrence.declaration.0 < old(self).declaration_count()
                    && *r->Ok_0.0 == old(self).spec_declaration(d).payload
                    && r->Ok_0.1 == old(self).spec_declaration(d).important
                    && final(self).is_payload_replacement_of(old(self), occurrence.block, occurrence.declaration, *final(r->Ok_0.0))
                &&& r is Err ==> *final(self) == *old(self)
            }),
            final(self).wf(),
    {
        let b = occurrence.block.0 as usize;
        let d = occurrence.declaration.0 as usize;
        if b >= self.declaration_blocks.len() || !self.declaration_blocks[b].live {
            return Err(MutationError::UnknownDeclarationBlock(occurrence.block));
        }
        if d >= self.declarations.len() {
            return Err(MutationError::UnknownDeclaration(occurrence.declaration));
        }
        let ghost pre = *self;
        let mut record = self.declaration_blocks[b];
        record.revision = record.revision.wrapping_add(1);
        self.declaration_blocks.set(b, record);
        let important = self.declarations[d].important;
        proof {
            assert forall|post: Self| Self::is_payload_write(pre, post, b as int, d as int) implies #[trigger] post.wf() by {
                Self::lemma_payload_write(pre, post, b as int, d as int);
            }
            assert(pre.chains@.len() == pre.declaration_blocks@.len() && pre.lists@.len() == pre.rule_lists@.len()) by {
                reveal(AstContext::wf_blocks);
                reveal(AstContext::wf_lists);
            }
        }
        let declaration = &mut self.declarations[d];
        let payload = &mut declaration.payload;
        Ok((payload, important))
    }

    /// Mutable access to the payload of `declaration` through its owning
    /// `block`, which must be live and hold it; bumps the block's revision
    /// before the payload is handed out.
    pub fn declaration_occurrence_mut(&mut self, block: DeclarationBlockId, declaration: DeclarationId) -> (r: Result<(&mut D, bool), MutationError>)
        requires
            old(self).wf(),
        ensures
            final(self).wf(),
            Self::spec_chain_member_error(old(self), block, declaration) matches Some(e) ==>
                r is Err && r->Err_0 == e && *final(self) == *old(self),
            Self::spec_chain_member_error(old(self), block, declaration) is None ==> {
                &&& r is Ok
                &&& *r->Ok_0.0 == old(self).spec_declaration(declaration.0 as int).payload
                &&& r->Ok_0.1 == old(self).spec_declaration(declaration.0 as int).important
                &&& final(self).is_payload_replacement_of(old(self), block, declaration, *final(r->Ok_0.0))
            },
    {
        let b = block.0 as usize;
        if b >= self.declaration_blocks.len() || !self.declaration_blocks[b].live {
            return Err(MutationError::UnknownDeclarationBlock(block));
        }
        match self.declaration_chain_contains(block, declaration) {
            Err(e) => {
                return Err(e);
            },
            Ok(false) => {
                return Err(MutationError::UnknownDeclaration(declaration));
            },
            Ok(true) => {},
        }
        let d = declaration.0 as usize;
        proof {
            reveal(AstContext::wf_sizes);
            reveal(AstContext::wf_blocks);
            let c = self.chains@[b as int];
            let k = choose|k: int| 0 <= k < c.len() && c[k] == declaration.0;
            assert(c[k] < self.declarations@.len());
        }
        let ghost pre = *self;
        let mut record = self.declaration_blocks[b];
        record.revision = record.revision.wrapping_add(1);
        self.declaration_blocks.set(b, record);
        let important = self.declarations[d].important;
        proof {
            assert forall|post: Self| Self::is_payload_write(pre, post, b as int, d as int) implies #[trigger] post.wf() by {
                Self::lemma_payload_write(pre, post, b as int, d as int);
            }
            assert(pre.chains@.len() == pre.declaration_blocks@.len() && pre.lists@.len() == pre.rule_lists@.len()) by {
                reveal(AstContext::wf_blocks);
                reveal(AstContext::wf_lists);
            }
        }
        let declaration_record = &mut self.declarations[d];
        let payload = &mut declaration_record.payload;
        Ok((payload, important))
    }
}

} // verus!

verus! {

impl<R, D> AstContext<R, D> {
    /// Stores `payload` and `important` in declaration `d`.
    fn set_declaration_contents(&mut self, d: usize, payload: D, important: bool)
        requires
            old(self).wf(),
            d < old(self).declaration_count(),
        ensures
            final(self).wf(),
            final(self).spec_declaration(d as int) == (DeclarationRecord { payload, important, ..old(self).spec_declaration(d as int) }),
            final(self).declaration_count() == old(self).declaration_count(),
            forall|x: int| 0 <= x < old(self).declaration_count() && x != d ==> #[trigger] final(self).spec_declaration(x)
                == old(self).spec_declaration(x),
            final(self).block_count() == old(self).block_count(),
            forall|x: int| 0 <= x < old(self).block_count() ==> #[trigger] final(self).spec_block(x) == old(self).spec_block(x),
            forall|x: int| 0 <= x < old(self).block_count() ==> #[trigger] final(self).chain(x) == old(self).chain(x),
            final(self).key_count() == old(self).key_count(),
            forall|k: int| 0 <= k < old(self).key_count() ==> #[trigger] final(self).spec_key(k) == old(self).spec_key(k),
            same_rule_side(final(self), old(self)),
    {
        let ghost pre = *self;
        self.declarations[d].payload = payload;
        self.declarations[d].important = important;
        proof {
            Self::lemma_frame_source(pre, *self);
            Self::lemma_frame_lists(pre, *self);
            Self::lemma_frame_tree(pre, *self);
            Self::lemma_frame_keys(pre, *self);
            Self::lemma_frame_sizes(pre, *self);
            Self::lemma_frame_blocks(pre, *self);
            assert(self.chains@.len() == self.declaration_blocks@.len() && self.lists@.len() == self.rule_lists@.len()) by {
                reveal(AstContext::wf_blocks);
                reveal(AstContext::wf_lists);
            }
        }
    }

    /// Visits the declarations of a live block in chain order, storing the
    /// payload and importance that `visit` makes of each record, and advances
    /// the block's revision by the number of declarations visited; returns
    /// that number.
    pub fn for_each_declaration_mut<F: Fn(DeclarationId, &D, bool) -> (D, bool)>(&mut self, block: DeclarationBlockId, visit: F) -> (r: Result<usize, MutationError>)
        requires
            old(self).wf(),
            forall|id: DeclarationId, payload: &D, important: bool| #[trigger] visit.requires((id, payload, important)),
        ensures
            final(self).wf(),
            (block.0 >= old(self).block_count() || !old(self).spec_block(block.0 as int).live) ==>
                r == Err::<usize, MutationError>(MutationError::UnknownDeclarationBlock(block)) && *final(self) == *old(self),
            (block.0 < old(self).block_count() && old(self).spec_block(block.0 as int).live) ==> ({
                let b = block.0 as int;
                let c = old(self).chain(b);
                &&& r == Ok::<usize, MutationError>(c.len() as usize)
                &&& final(self).declaration_count() == old(self).declaration_count()
                &&& forall|i: int| 0 <= i < c.len() ==> visit.ensures(
                    (DeclarationId(c[i]), &old(self).spec_declaration(c[i] as int).payload, old(self).spec_declaration(c[i] as int).important),
                    (#[trigger] final(self).spec_declaration(c[i] as int).payload, final(self).spec_declaration(c[i] as int).important))
                &&& forall|x: int| 0 <= x < old(self).declaration_count() ==> {
                    &&& (#[trigger] final(self).spec_declaration(x)).next_in_block == old(self).spec_declaration(x).next_in_block
                    &&& (!c.contains(x as u32) ==> final(self).spec_declaration(x) == old(self).spec_declaration(x))
                }
                &&& final(self).spec_block(b).revision == (if old(self).spec_block(b).revision + c.len() > u32::MAX {
                    (old(self).spec_block(b).revision + c.len() - 0x1_0000_0000) as u32
                } else {
                    (old(self).spec_block(b).revision + c.len()) as u32
                })
                &&& final(self).spec_block(b) == (DeclarationBlockRecord {
                    revision: final(self).spec_block(b).revision,
                    ..old(self).spec_block(b)
                })
                &&& final(self).block_count() == old(self).block_count()
                &&& forall|x: int| 0 <= x < old(self).block_count() && x != b ==> #[trigger] final(self).spec_block(x)
                    == old(self).spec_block(x)
                &&& forall|x: int| 0 <= x < old(self).block_count() ==> #[trigger] final(self).chain(x) == old(self).chain(x)
                &&& final(self).key_count() == old(self).key_count()
                &&& forall|k: int| 0 <= k < old(self).key_count() ==> #[trigger] final(self).spec_key(k) == old(self).spec_key(k)
                &&& same_rule_side(final(self), old(self))
            }),
    {
        let b = block.0 as usize;
        if b >= self.declaration_blocks.len() || !self.declaration_blocks[b].live {
            return Err(MutationError::UnknownDeclarationBlock(block));
        }
        let ids = match self.declaration_ids_in_block(block) {
            Ok(ids) => ids,
            Err(e) => {
                return Err(e);
            },
        };
        let ghost pre = *self;
        let ghost c = self.chain(b as int);
        proof {
            pre.lemma_chain_facts(b as int);
        }
        let mut i: usize = 0;
        while i < ids.len()
            invariant
                self.wf(),
                b == block.0,
                (b as int) < pre.block_count(),
                c == pre.chain(b as int),
                ids@.len() == c.len(),
                forall|j: int| 0 <= j < ids@.len() ==> #[trigger] ids@[j] == DeclarationId(c[j]),
                forall|j: int| 0 <= j < c.len() ==> (#[trigger] c[j] as int) < pre.declaration_count(),
                forall|j: int, k: int| 0 <= j < k < c.len() ==> #[trigger] c[j] != #[trigger] c[k],
                forall|id: DeclarationId, payload: &D, important: bool| #[trigger] visit.requires((id, payload, important)),
                i <= ids@.len(),
                self.declaration_count() == pre.declaration_count(),
                forall|j: int| 0 <= j < i ==> visit.ensures(
                    (DeclarationId(c[j]), &pre.spec_declaration(c[j] as int).payload, pre.spec_declaration(c[j] as int).important),
                    (#[trigger] self.spec_declaration(c[j] as int).payload, self.spec_declaration(c[j] as int).important)),
                forall|j: int| i <= j < c.len() ==> #[trigger] self.spec_declaration(c[j] as int) == pre.spec_declaration(c[j] as int),
                forall|x: int| 0 <= x < pre.declaration_count() ==> {
                    &&& (#[trigger] self.spec_declaration(x)).next_in_block == pre.spec_declaration(x).next_in_block
                    &&& (!c.contains(x as u32) ==> self.spec_declaration(x) == pre.spec_declaration(x))
                },
                self.block_count() == pre.block_count(),
                forall|x: int| 0 <= x < pre.block_count() ==> #[trigger] self.spec_block(x) == pre.spec_block(x),
                forall|x: int| 0 <= x < pre.block_count() ==> #[trigger] self.chain(x) == pre.chain(x),
                self.key_count() == pre.key_count(),
                forall|k: int| 0 <= k < pre.key_count() ==> #[trigger] self.spec_key(k) == pre.spec_key(k),
                same_rule_side(self, &pre),
            decreases ids.len() - i,
        {
            let d = ids[i].0 as usize;
            let (payload, important) = visit(ids[i], &self.declarations[d].payload, self.declarations[d].important);
            let ghost cur = *self;
            self.set_declaration_contents(d, payload, important);
            proof {
                assert forall|j: int| 0 <= j < i + 1 implies visit.ensures(
                    (DeclarationId(c[j]), &pre.spec_declaration(c[j] as int).payload, pre.spec_declaration(c[j] as int).important),
                    (#[trigger] self.spec_declaration(c[j] as int).payload, self.spec_declaration(c[j] as int).important)) by {
                    if j < i {
                        assert(c[j] != c[i as int]);
                        assert(cur.spec_declaration(c[j] as int) == self.spec_declaration(c[j] as int));
                    }
                }
                assert forall|j: int| i + 1 <= j < c.len() implies #[trigger] self.spec_declaration(c[j] as int)
                    == pre.spec_declaration(c[j] as int) by {
                    assert(c[j] != c[i as int]);
                    assert(cur.spec_declaration(c[j] as int) == pre.spec_declaration(c[j] as int));
                }
                assert forall|x: int| 0 <= x < pre.declaration_count() implies {
                    &&& (#[trigger] self.spec_declaration(x)).next_in_block == pre.spec_declaration(x).next_in_block
                    &&& (!c.contains(x as u32) ==> self.spec_declaration(x) == pre.spec_declaration(x))
                } by {
                    assert(cur.spec_declaration(x).next_in_block == pre.spec_declaration(x).next_in_block);
                    if x == d {
                        assert(c.contains(x as u32));
                    }
                }
            }
            i = i + 1;
        }
        if ids.len() != 0 {
            let mut record = self.declaration_blocks[b];
            let visited = ids.len() as u32;
            record.revision = record.revision.wrapping_add(visited);
            let ghost before = *self;
            proof {
                assert(before.spec_block(b as int) == pre.spec_block(b as int));
                assert(visited as int == c.len());
            }
            self.declaration_blocks.set(b, record);
            proof {
                assert forall|post: Self| post == *self implies #[trigger] post.wf() by {
                    Self::lemma_revision_write(before, post, b as int);
                }
                assert forall|x: int| 0 <= x < pre.declaration_count() implies #[trigger] self.spec_declaration(x)
                    == before.spec_declaration(x) by {}
                assert forall|x: int| 0 <= x < pre.block_count() && x != b implies #[trigger] self.spec_block(x)
                    == pre.spec_block(x) by {
                    assert(before.spec_block(x) == pre.spec_block(x));
                }
                assert forall|x: int| 0 <= x < pre.block_count() implies #[trigger] self.chain(x) == pre.chain(x) by {
                    assert(before.chain(x) == pre.chain(x));
                }
                assert forall|k: int| 0 <= k < pre.key_count() implies #[trigger] self.spec_key(k) == pre.spec_key(k) by {
                    assert(before.spec_key(k) == pre.spec_key(k));
                }
                assert(same_rule_side(self, &before));
            }
        }
        Ok(ids.len())
    }

    /// Facts about the chain of block `b`: its members are distinct
    /// declarations of the store and it fits a `u32` count.
    proof fn lemma_chain_facts(&self, b: int)
        requires
            self.wf(),
            0 <= b < self.declaration_blocks@.len(),
        ensures
            forall|j: int| 0 <= j < self.chain(b).len() ==> (#[trigger] self.chain(b)[j] as int) < self.declaration_count(),
            forall|j: int, k: int| 0 <= j < k < self.chain(b).len() ==> #[trigger] self.chain(b)[j] != #[trigger] self.chain(b)[k],
            self.chain(b).len() <= u32::MAX,
    {
        reveal(AstContext::wf_blocks);
        reveal(AstContext::wf_sizes);
        let c = self.chains@[b];
        assert forall|j: int, k: int| 0 <= j < k < c.len() implies #[trigger] c[j] != #[trigger] c[k] by {
            assert(self.decl_pos@[c[j] as int] == j);
            assert(self.decl_pos@[c[k] as int] == k);
        }
    }

    /// Writing the revision of block `b` keeps the context well formed.
    proof fn lemma_revision_write(pre: Self, post: Self, b: int)
        requires
            pre.wf(),
            0 <= b < pre.declaration_blocks@.len(),
            post.declaration_blocks@.len() == pre.declaration_blocks@.len(),
            forall|x: int| 0 <= x < pre.declaration_blocks@.len() && x != b ==> #[trigger] post.declaration_blocks@[x] == pre.declaration_blocks@[x],
            post.declaration_blocks@[b] == (DeclarationBlockRecord {
                revision: post.declaration_blocks@[b].revision,
                ..pre.declaration_blocks@[b]
            }),
            post.declarations@ == pre.declarations@,
            post.rules@ == pre.rules@,
            post.rule_spans@ == pre.rule_spans@,
            post.rule_lists@ == pre.rule_lists@,
            post.effective_keys@ == pre.effective_keys@,
            post.effective_key_ids == pre.effective_key_ids,
            post.stylesheet == pre.stylesheet,
            post.first_rule_in_source == pre.first_rule_in_source,
            post.last_rule_in_source == pre.last_rule_in_source,
            post.source@ == pre.source@,
            post.source_pos@ == pre.source_pos@,
            post.lists@ == pre.lists@,
            post.list_pos@ == pre.list_pos@,
            post.chains@ == pre.chains@,
            post.decl_owner@ == pre.decl_owner@,
            post.decl_pos@ == pre.decl_pos@,
        ensures
            post.wf(),
    {
        Self::lemma_frame_source(pre, post);
        Self::lemma_frame_lists(pre, post);
        Self::lemma_frame_tree(pre, post);
        Self::lemma_frame_keys(pre, post);
        Self::lemma_frame_sizes(pre, post);
        reveal(AstContext::wf_blocks);
        assert forall|x: int| 0 <= x < post.declaration_blocks@.len() implies {
            let cc = #[trigger] post.chains@[x];
            let rec = post.declaration_blocks@[x];
            &&& cc.len() == rec.declaration_count
            &&& rec.first_declaration == declaration_at(cc, 0)
            &&& rec.last_declaration == declaration_at(cc, cc.len() - 1)
            &&& (rec.owner->Rule_0.0 as int) < post.rules@.len()
            &&& post.rules@[rec.owner->Rule_0.0 as int].declaration_block == Some(DeclarationBlockId(x as u32))
            &&& rec.live == post.rules@[rec.owner->Rule_0.0 as int].live
            &&& (rec.effective_key.0 as int) < post.effective_keys@.len()
        } by {
            assert(pre.chains@[x] == post.chains@[x]);
        }
        assert forall|x: int, i: int| 0 <= x < post.declaration_blocks@.len() && 0 <= i < post.chains@[x].len() implies {
            let dd = #[trigger] post.chains@[x][i];
            &&& dd < post.declarations@.len()
            &&& post.decl_owner@[dd as int] == x
            &&& post.decl_pos@[dd as int] == i
            &&& post.declarations@[dd as int].next_in_block == declaration_at(post.chains@[x], i + 1)
        } by {
            assert(pre.chains@[x][i] < pre.declarations@.len());
        }
        assert(post.wf_blocks());
    }
}

} // verus!

verus! {

impl<R, D> AstContext<R, D> {
    /// Sets the revision of block `b`.
    fn set_block_revision(&mut self, b: usize, revision: u32)
        requires
            old(self).wf(),
            b < old(self).block_count(),
        ensures
            final(self).wf(),
            final(self).spec_block(b as int) == (DeclarationBlockRecord { revision, ..old(self).spec_block(b as int) }),
            final(self).block_count() == old(self).block_count(),
            forall|x: int| 0 <= x < old(self).block_count() && x != b ==> #[trigger] final(self).spec_block(x) == old(self).spec_block(x),
            forall|x: int| 0 <= x < old(self).block_count() ==> #[trigger] final(self).chain(x) == old(self).chain(x),
            final(self).declaration_count() == old(self).declaration_count(),
            forall|d: int| 0 <= d < old(self).declaration_count() ==> #[trigger] final(self).spec_declaration(d) == old(self).spec_declaration(d),
            final(self).key_count() == old(self).key_count(),
            forall|k: int| 0 <= k < old(self).key_count() ==> #[trigger] final(self).spec_key(k) == old(self).spec_key(k),
            same_rule_side(final(self), old(self)),
    {
        let ghost pre = *self;
        let mut record = self.declaration_blocks[b];
        record.revision = revision;
        self.declaration_blocks.set(b, record);
        proof {
            Self::lemma_revision_write(pre, *self, b as int);
            assert(pre.chains@.len() == pre.declaration_blocks@.len() && pre.lists@.len() == pre.rule_lists@.len()) by {
                reveal(AstContext::wf_blocks);
                reveal(AstContext::wf_lists);
            }
        }
    }

    /// Rewrites a declaration payload into a sequence of declarations after
    /// one complete check of membership and capacity.
    ///
    /// `placeholder` stands in the declaration while `rewrite` owns the
    /// previous payload; `rewrite` must return exactly `additional + 1`
    /// declarations. The block's revision advances once.
    pub fn rewrite_declaration_with_sequence<F: FnOnce(D, bool) -> Vec<(D, bool)>>(
        &mut self,
        block: DeclarationBlockId,
        declaration: DeclarationId,
        additional: usize,
        placeholder: D,
        rewrite: F,
    ) -> (r: Result<(), MutationError>)
        requires
            old(self).wf(),
            forall|payload: D, important: bool| #[trigger] rewrite.requires((payload, important)),
            forall|payload: D, important: bool, out: Vec<(D, bool)>| #[trigger] rewrite.ensures((payload, important), out)
                ==> out@.len() == additional + 1,
        ensures
            final(self).wf(),
            ({
                let b = block.0 as int;
                let d = declaration.0 as int;
                &&& (block.0 >= old(self).block_count() || !old(self).spec_block(b).live) ==>
                    r == Err::<(), MutationError>(MutationError::UnknownDeclarationBlock(block)) && *final(self) == *old(self)
                &&& (block.0 < old(self).block_count() && old(self).spec_block(b).live
                    && !old(self).chain(b).contains(declaration.0)) ==>
                    r == Err::<(), MutationError>(MutationError::UnknownDeclaration(declaration)) && *final(self) == *old(self)
                &&& (block.0 < old(self).block_count() && old(self).spec_block(b).live
                    && old(self).chain(b).contains(declaration.0)
                    && old(self).declaration_count() + additional > DENSE_CAPACITY) ==>
                    r == Err::<(), MutationError>(MutationError::DeclarationCapacityExhausted) && *final(self) == *old(self)
                &&& (block.0 < old(self).block_count() && old(self).spec_block(b).live
                    && old(self).chain(b).contains(declaration.0)
                    && old(self).declaration_count() + additional <= DENSE_CAPACITY) ==> {
                    &&& r is Ok
                    &&& exists|out: Vec<(D, bool)>| {
                        &&& #[trigger] rewrite.ensures((old(self).spec_declaration(d).payload, old(self).spec_declaration(d).important), out)
                        &&& final(self).is_sequence_replacement_of(old(self), block, declaration, out@)
                    }
                }
            }),
    {
        let b = block.0 as usize;
        if b >= self.declaration_blocks.len() || !self.declaration_blocks[b].live {
            return Err(MutationError::UnknownDeclarationBlock(block));
        }
        match self.declaration_chain_contains(block, declaration) {
            Err(e) => {
                return Err(e);
            },
            Ok(false) => {
                return Err(MutationError::UnknownDeclaration(declaration));
            },
            Ok(true) => {},
        }
        let final_revision = self.declaration_blocks[b].revision.wrapping_add(1);
        proof {
            self.lemma_chain_member(b as int, declaration.0);
            self.lemma_chain_len_bounded(b as int);
        }
        if additional > DENSE_CAPACITY - self.declarations.len() {
            return Err(MutationError::DeclarationCapacityExhausted);
        }
        let important = self.declarations[declaration.0 as usize].important;
        let ghost pre = *self;
        let previous = match self.replace_declaration(block, declaration, placeholder) {
            Ok(previous) => previous,
            Err(e) => {
                proof {
                    assert(false);
                }
                return Err(e);
            },
        };
        let replacements = rewrite(previous, important);
        let ghost reps = replacements@;
        let ghost reps_vec = replacements;
        let ghost mid = *self;
        proof {
            assert(mid.chain(b as int) == pre.chain(b as int));
            assert(mid.spec_block(b as int).declaration_count == pre.spec_block(b as int).declaration_count);
            mid.lemma_chain_member(b as int, declaration.0);
            pre.lemma_chain_member(b as int, declaration.0);
            assert(mid.chain_position(declaration.0 as int) == pre.chain_position(declaration.0 as int)) by {
                let p = pre.decl_pos@[declaration.0 as int];
                assert(mid.chains@[b as int][p] == declaration.0);
            }
        }
        match self.replace_declaration_with_sequence(block, declaration, replacements) {
            Ok(_) => {},
            Err(e) => {
                proof {
                    assert(false);
                }
                return Err(e);
            },
        }
        let ghost before = *self;
        self.set_block_revision(b, final_revision);
        proof {
            let d = declaration.0 as int;
            assert(rewrite.ensures((pre.spec_declaration(d).payload, pre.spec_declaration(d).important), reps_vec));
            assert forall|x: int| 0 <= x < pre.declaration_count() && x != d implies (#[trigger] self.spec_declaration(x)).payload
                == pre.spec_declaration(x).payload && self.spec_declaration(x).important == pre.spec_declaration(x).important by {
                assert(before.spec_declaration(x).payload == mid.spec_declaration(x).payload);
                assert(mid.spec_declaration(x) == pre.spec_declaration(x));
            }
            assert forall|x: int| 0 <= x < pre.block_count() && x != b implies #[trigger] self.spec_block(x) == pre.spec_block(x) by {
                assert(before.spec_block(x) == mid.spec_block(x));
            }
            assert forall|x: int| 0 <= x < pre.block_count() && x != b implies #[trigger] self.chain(x) == pre.chain(x) by {
                assert(before.chain(x) == mid.chain(x));
            }
            assert forall|k: int| 0 <= k < pre.key_count() implies #[trigger] self.spec_key(k) == pre.spec_key(k) by {
                assert(before.spec_key(k) == mid.spec_key(k));
            }
            assert(self.is_sequence_replacement_of(&pre, block, declaration, reps_vec@));
        }
        Ok(())
    }
}

} // verus!
