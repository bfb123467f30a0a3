//! Ordered views of the stores: rules in source order and in one list,
//! declaration blocks in source order, and the declarations of one block.

use super::{AstContext, declaration_at, rule_at};
use crate::ids::{DeclarationBlockId, DeclarationId, RuleId, RuleListId};
use crate::records::{DeclarationBlockRecord, DeclarationOccurrence, DeclarationRecord, MutationError, RuleRecord};
use vstd::prelude::*;

verus! {

impl<R, D> AstContext<R, D> {
    /// Every rule, live and retired, in global source order.
    pub fn rules_in_source_order(&self) -> (r: Vec<(RuleId, &RuleRecord<R>)>)
        requires
            self.wf(),
        ensures
            r@.len() == self.source_seq().len(),
            self.source_seq().len() == self.rule_count(),
            forall|i: int| 0 <= i < r@.len() ==> (#[trigger] r@[i]).0 == RuleId(self.source_seq()[i])
                && *r@[i].1 == self.spec_rule(self.source_seq()[i] as int),
    {
        proof {
            reveal(AstContext::wf_source);
        }
        let ghost s = self.source@;
        let mut out: Vec<(RuleId, &RuleRecord<R>)> = Vec::new();
        let mut next = self.first_rule_in_source;
        let mut remaining = self.rules.len();
        while remaining > 0
            invariant
                self.wf(),
                s == self.source@,
                s.len() == self.rules@.len(),
                0 <= out@.len() <= s.len(),
                remaining == s.len() - out@.len(),
                next == rule_at(s, out@.len() as int),
                forall|i: int| 0 <= i < out@.len() ==> (#[trigger] out@[i]).0 == RuleId(s[i])
                    && *out@[i].1 == self.rules@[s[i] as int],
            decreases remaining,
        {
            proof {
                reveal(AstContext::wf_source);
            }
            let id = next.unwrap();
            proof {
                assert(s[out@.len() as int] < s.len());
            }
            let rule = &self.rules[id.0 as usize];
            next = rule.next_in_source;
            out.push((id, rule));
            remaining = remaining - 1;
        }
        out
    }

    /// The live rules of `list`, in sibling order.
    pub fn rules_in_list(&self, list: RuleListId) -> (r: Result<Vec<(RuleId, &RuleRecord<R>)>, MutationError>)
        requires
            self.wf(),
        ensures
            list.0 >= self.list_count() ==> r == Err::<Vec<(RuleId, &RuleRecord<R>)>, MutationError>(MutationError::UnknownRuleList(list)),
            list.0 < self.list_count() ==> (r matches Ok(v) && v@.len() == self.list_seq(list.0 as int).len()
                && forall|i: int| 0 <= i < v@.len() ==> (#[trigger] v@[i]).0 == RuleId(self.list_seq(list.0 as int)[i])
                    && *v@[i].1 == self.spec_rule(self.list_seq(list.0 as int)[i] as int)),
    {
        let l = list.0 as usize;
        if l >= self.rule_lists.len() {
            return Err(MutationError::UnknownRuleList(list));
        }
        proof {
            reveal(AstContext::wf_lists);
        }
        let ghost s = self.lists@[l as int];
        let mut out: Vec<(RuleId, &RuleRecord<R>)> = Vec::new();
        let mut next = self.rule_lists[l].first;
        let mut remaining = self.rule_lists[l].live_len;
        while remaining > 0
            invariant
                self.wf(),
                l < self.rule_lists@.len(),
                s == self.lists@[l as int],
                0 <= out@.len() <= s.len(),
                remaining == s.len() - out@.len(),
                next == rule_at(s, out@.len() as int),
                forall|i: int| 0 <= i < out@.len() ==> (#[trigger] out@[i]).0 == RuleId(s[i])
                    && *out@[i].1 == self.rules@[s[i] as int],
            decreases remaining,
        {
            proof {
                reveal(AstContext::wf_lists);
                assert(s[out@.len() as int] < self.rules@.len());
            }
            let id = next.unwrap();
            let rule = &self.rules[id.0 as usize];
            next = rule.next_sibling;
            out.push((id, rule));
            remaining = remaining - 1;
        }
        Ok(out)
    }
}

} // verus!

verus! {

impl<R, D> AstContext<R, D> {
    /// The declarations of `block`, in chain order.
    pub fn declaration_ids_in_block(&self, block: DeclarationBlockId) -> (r: Result<Vec<DeclarationId>, MutationError>)
        requires
            self.wf(),
        ensures
            block.0 >= self.block_count() ==> r == Err::<Vec<DeclarationId>, MutationError>(MutationError::UnknownDeclarationBlock(block)),
            block.0 < self.block_count() ==> (r matches Ok(v) && v@.len() == self.chain(block.0 as int).len()
                && forall|i: int| 0 <= i < v@.len() ==> #[trigger] v@[i] == DeclarationId(self.chain(block.0 as int)[i])),
    {
        let b = block.0 as usize;
        if b >= self.declaration_blocks.len() {
            return Err(MutationError::UnknownDeclarationBlock(block));
        }
        proof {
            reveal(AstContext::wf_blocks);
        }
        let ghost c = self.chains@[b as int];
        let mut out: Vec<DeclarationId> = Vec::new();
        let mut next = self.declaration_blocks[b].first_declaration;
        let mut remaining = self.declaration_blocks[b].declaration_count;
        while remaining > 0
            invariant
                self.wf(),
                b < self.declaration_blocks@.len(),
                c == self.chains@[b as int],
                0 <= out@.len() <= c.len(),
                remaining == c.len() - out@.len(),
                next == declaration_at(c, out@.len() as int),
                forall|i: int| 0 <= i < out@.len() ==> #[trigger] out@[i] == DeclarationId(c[i]),
            decreases remaining,
        {
            proof {
                reveal(AstContext::wf_blocks);
                assert(c[out@.len() as int] < self.declarations@.len());
            }
            let id = next.unwrap();
            next = self.declarations[id.0 as usize].next_in_block;
            out.push(id);
            remaining = remaining - 1;
        }
        Ok(out)
    }

    /// The declaration records of `block`, in chain order.
    pub fn declarations_in_block(&self, block: DeclarationBlockId) -> (r: Result<Vec<&DeclarationRecord<D>>, MutationError>)
        requires
            self.wf(),
        ensures
            block.0 >= self.block_count() ==> r == Err::<Vec<&DeclarationRecord<D>>, MutationError>(
                MutationError::UnknownDeclarationBlock(block)),
            block.0 < self.block_count() ==> (r matches Ok(v) && v@.len() == self.chain(block.0 as int).len()
                && forall|i: int| 0 <= i < v@.len() ==> *(#[trigger] v@[i]) == self.spec_declaration(self.chain(block.0 as int)[i] as int)),
    {
        let ids = match self.declaration_ids_in_block(block) {
            Ok(ids) => ids,
            Err(e) => {
                return Err(e);
            },
        };
        let ghost c = self.chain(block.0 as int);
        let mut out: Vec<&DeclarationRecord<D>> = Vec::new();
        let mut i: usize = 0;
        while i < ids.len()
            invariant
                self.wf(),
                (block.0 as int) < self.block_count(),
                c == self.chain(block.0 as int),
                ids@.len() == c.len(),
                forall|j: int| 0 <= j < ids@.len() ==> #[trigger] ids@[j] == DeclarationId(c[j]),
                i <= ids@.len(),
                out@.len() == i,
                forall|j: int| 0 <= j < i ==> *(#[trigger] out@[j]) == self.spec_declaration(c[j] as int),
            decreases ids.len() - i,
        {
            proof {
                reveal(AstContext::wf_blocks);
                assert(c[i as int] < self.declarations@.len());
            }
            out.push(&self.declarations[ids[i].0 as usize]);
            i = i + 1;
        }
        Ok(out)
    }

    /// Occurrence tokens and records of the declarations of `block`, in
    /// chain order.
    pub fn declaration_occurrences_in_block(&self, block: DeclarationBlockId) -> (r: Result<Vec<(DeclarationOccurrence, &DeclarationRecord<D>)>, MutationError>)
        requires
            self.wf(),
        ensures
            block.0 >= self.block_count() ==> r == Err::<Vec<(DeclarationOccurrence, &DeclarationRecord<D>)>, MutationError>(
                MutationError::UnknownDeclarationBlock(block)),
            block.0 < self.block_count() ==> (r matches Ok(v) && v@.len() == self.chain(block.0 as int).len()
                && forall|i: int| 0 <= i < v@.len() ==> (#[trigger] v@[i]).0 == (DeclarationOccurrence {
                    block,
                    declaration: DeclarationId(self.chain(block.0 as int)[i]),
                }) && *v@[i].1 == self.spec_declaration(self.chain(block.0 as int)[i] as int)),
    {
        let ids = match self.declaration_ids_in_block(block) {
            Ok(ids) => ids,
            Err(e) => {
                return Err(e);
            },
        };
        let ghost c = self.chain(block.0 as int);
        let mut out: Vec<(DeclarationOccurrence, &DeclarationRecord<D>)> = Vec::new();
        let mut i: usize = 0;
        while i < ids.len()
            invariant
                self.wf(),
                (block.0 as int) < self.block_count(),
                c == self.chain(block.0 as int),
                ids@.len() == c.len(),
                forall|j: int| 0 <= j < ids@.len() ==> #[trigger] ids@[j] == DeclarationId(c[j]),
                i <= ids@.len(),
                out@.len() == i,
                forall|j: int| 0 <= j < i ==> (#[trigger] out@[j]).0 == (DeclarationOccurrence {
                    block,
                    declaration: DeclarationId(c[j]),
                }) && *out@[j].1 == self.spec_declaration(c[j] as int),
            decreases ids.len() - i,
        {
            proof {
                reveal(AstContext::wf_blocks);
                assert(c[i as int] < self.declarations@.len());
            }
            let declaration = ids[i];
            out.push((DeclarationOccurrence { block, declaration }, &self.declarations[declaration.0 as usize]));
            i = i + 1;
        }
        Ok(out)
    }

    /// Resolves one chain position of `block` without collecting the chain.
    pub fn declaration_id_at_in_block(&self, block: DeclarationBlockId, index: usize) -> (r: Result<DeclarationId, MutationError>)
        requires
            self.wf(),
        ensures
            block.0 >= self.block_count() ==> r == Err::<DeclarationId, MutationError>(MutationError::UnknownDeclarationBlock(block)),
            block.0 < self.block_count() && index >= self.chain(block.0 as int).len() ==> r == Err::<DeclarationId, MutationError>(
                MutationError::DeclarationIndexOutOfBounds { block, index }),
            block.0 < self.block_count() && index < self.chain(block.0 as int).len() ==> r == Ok::<DeclarationId, MutationError>(
                DeclarationId(self.chain(block.0 as int)[index as int])),
    {
        let b = block.0 as usize;
        if b >= self.declaration_blocks.len() {
            return Err(MutationError::UnknownDeclarationBlock(block));
        }
        proof {
            reveal(AstContext::wf_blocks);
        }
        let ghost c = self.chains@[b as int];
        if index >= self.declaration_blocks[b].declaration_count as usize {
            return Err(MutationError::DeclarationIndexOutOfBounds { block, index });
        }
        let mut current = self.declaration_blocks[b].first_declaration;
        let mut i: usize = 0;
        while i < index
            invariant
                self.wf(),
                b < self.declaration_blocks@.len(),
                c == self.chains@[b as int],
                index < c.len(),
                i <= index,
                current == declaration_at(c, i as int),
            decreases index - i,
        {
            proof {
                reveal(AstContext::wf_blocks);
                assert(c[i as int] < self.declarations@.len());
            }
            let declaration = current.unwrap();
            current = self.declarations[declaration.0 as usize].next_in_block;
            i = i + 1;
        }
        Ok(current.unwrap())
    }

    /// Every declaration record with its identity, in store order.
    pub fn declarations_in_source_order(&self) -> (r: Vec<(DeclarationId, &DeclarationRecord<D>)>)
        requires
            self.wf(),
        ensures
            r@.len() == self.declaration_count(),
            forall|i: int| 0 <= i < r@.len() ==> (#[trigger] r@[i]).0 == DeclarationId(i as u32)
                && *r@[i].1 == self.spec_declaration(i),
    {
        proof {
            reveal(AstContext::wf_sizes);
        }
        let mut out: Vec<(DeclarationId, &DeclarationRecord<D>)> = Vec::new();
        let mut i: usize = 0;
        while i < self.declarations.len()
            invariant
                self.wf(),
                self.declarations@.len() <= u32::MAX,
                i <= self.declarations@.len(),
                out@.len() == i,
                forall|j: int| 0 <= j < i ==> (#[trigger] out@[j]).0 == DeclarationId(j as u32)
                    && *out@[j].1 == self.declarations@[j],
            decreases self.declarations.len() - i,
        {
            out.push((DeclarationId(i as u32), &self.declarations[i]));
            i = i + 1;
        }
        out
    }

    /// The declaration blocks of all rules, live and retired, in global
    /// source order.
    pub fn declaration_blocks_in_source_order(&self) -> (r: Vec<(DeclarationBlockId, &DeclarationBlockRecord)>)
        requires
            self.wf(),
        ensures
            r@.len() == self.blocks_at(0, self.rule_count() as int).len(),
            forall|i: int| 0 <= i < r@.len() ==> (#[trigger] r@[i]).0 == self.blocks_at(0, self.rule_count() as int)[i]
                && *r@[i].1 == self.spec_block(r@[i].0.0 as int),
    {
        let rules = self.rules_in_source_order();
        let ghost s = self.source@;
        let mut out: Vec<(DeclarationBlockId, &DeclarationBlockRecord)> = Vec::new();
        let mut i: usize = 0;
        while i < rules.len()
            invariant
                self.wf(),
                s == self.source@,
                rules@.len() == s.len(),
                s.len() == self.rules@.len(),
                forall|j: int| 0 <= j < rules@.len() ==> (#[trigger] rules@[j]).0 == RuleId(s[j])
                    && *rules@[j].1 == self.rules@[s[j] as int],
                i <= rules@.len(),
                out@.len() == self.blocks_at(0, i as int).len(),
                forall|j: int| 0 <= j < out@.len() ==> (#[trigger] out@[j]).0 == self.blocks_at(0, i as int)[j]
                    && *out@[j].1 == self.declaration_blocks@[out@[j].0.0 as int],
            decreases rules.len() - i,
        {
            proof {
                reveal(AstContext::wf_blocks);
                reveal(AstContext::wf_source);
                assert(s[i as int] < self.rules@.len());
            }
            let rule = rules[i].1;
            if let Some(block) = rule.declaration_block {
                proof {
                    assert(self.rules@[s[i as int] as int].declaration_block == Some(block));
                }
                out.push((block, &self.declaration_blocks[block.0 as usize]));
            }
            i = i + 1;
        }
        out
    }
}

} // verus!
