//! Frame lemmas: each part of well-formedness survives any change that
//! leaves the fields it reads untouched.

use super::{declaration_at, rule_at, AstContext};
use crate::ids::{DeclarationBlockId, RuleListId};
use vstd::prelude::*;

verus! {

impl<R, D> AstContext<R, D> {
    /// The source chain survives changes that keep every source link and label.
    pub(super) proof fn lemma_frame_source(pre: Self, post: Self)
        requires
            pre.wf_source(),
            post.rules@.len() == pre.rules@.len(),
            post.source@ == pre.source@,
            post.source_pos@ == pre.source_pos@,
            post.first_rule_in_source == pre.first_rule_in_source,
            post.last_rule_in_source == pre.last_rule_in_source,
            forall|r: int| 0 <= r < pre.rules@.len() ==> {
                &&& (#[trigger] post.rules@[r]).previous_in_source == pre.rules@[r].previous_in_source
                &&& post.rules@[r].next_in_source == pre.rules@[r].next_in_source
                &&& post.rules@[r].source_order_id == pre.rules@[r].source_order_id
            },
        ensures
            post.wf_source(),
    {
        reveal(AstContext::wf_source);
        let n = pre.rules@.len();
        let s = pre.source@;
        assert forall|i: int| 0 <= i < n implies {
            &&& (#[trigger] post.rules@[s[i] as int]).previous_in_source == rule_at(s, i - 1)
            &&& post.rules@[s[i] as int].next_in_source == rule_at(s, i + 1)
        } by {
            assert(s[i] < n);
        }
        assert forall|i: int, j: int| 0 <= i < j < n implies
            (#[trigger] post.rules@[s[i] as int]).source_order_id.0 < (#[trigger] post.rules@[s[j] as int]).source_order_id.0 by {
            assert(s[i] < n && s[j] < n);
            assert(pre.rules@[s[i] as int].source_order_id.0 < pre.rules@[s[j] as int].source_order_id.0);
        }
    }

    /// The lists survive changes that keep every list and sibling link.
    pub(super) proof fn lemma_frame_lists(pre: Self, post: Self)
        requires
            pre.wf_lists(),
            post.rules@.len() == pre.rules@.len(),
            post.stylesheet == pre.stylesheet,
            post.rule_lists@ == pre.rule_lists@,
            post.lists@ == pre.lists@,
            post.list_pos@ == pre.list_pos@,
            forall|r: int| 0 <= r < pre.rules@.len() ==> {
                &&& (#[trigger] post.rules@[r]).live == pre.rules@[r].live
                &&& post.rules@[r].parent == pre.rules@[r].parent
                &&& post.rules@[r].parent_list == pre.rules@[r].parent_list
                &&& post.rules@[r].previous_sibling == pre.rules@[r].previous_sibling
                &&& post.rules@[r].next_sibling == pre.rules@[r].next_sibling
            },
        ensures
            post.wf_lists(),
    {
        reveal(AstContext::wf_lists);
        let nl = pre.rule_lists@.len();
        assert forall|m: int, i: int| 0 <= m < nl && 0 <= i < post.lists@[m].len() implies {
            let r = #[trigger] post.lists@[m][i];
            &&& r < post.rules@.len()
            &&& post.rules@[r as int].live
            &&& post.rules@[r as int].parent_list == RuleListId(m as u32)
            &&& post.list_pos@[r as int] == i
            &&& post.rules@[r as int].previous_sibling == rule_at(post.lists@[m], i - 1)
            &&& post.rules@[r as int].next_sibling == rule_at(post.lists@[m], i + 1)
        } by {
            assert(pre.lists@[m][i] < pre.rules@.len());
        }
    }

    /// The tree survives changes that keep every owner and child-list link.
    pub(super) proof fn lemma_frame_tree(pre: Self, post: Self)
        requires
            pre.wf_tree(),
            post.rules@.len() == pre.rules@.len(),
            post.rule_lists@ == pre.rule_lists@,
            forall|r: int| 0 <= r < pre.rules@.len() ==> {
                &&& (#[trigger] post.rules@[r]).live == pre.rules@[r].live
                &&& post.rules@[r].parent == pre.rules@[r].parent
                &&& post.rules@[r].child_list == pre.rules@[r].child_list
            },
        ensures
            post.wf_tree(),
    {
        reveal(AstContext::wf_tree);
        assert forall|m: int| 0 <= m < post.rule_lists@.len() implies match (#[trigger] post.rule_lists@[m]).parent {
            Some(p) => (p.0 as int) < post.rules@.len() && post.rules@[p.0 as int].live
                && post.rules@[p.0 as int].child_list == Some(RuleListId(m as u32)),
            None => true,
        } by {
            assert(pre.rule_lists@[m] == post.rule_lists@[m]);
        }
    }

    /// The blocks survive changes that keep every block, chain and ownership
    /// link, and the liveness of every rule.
    pub(super) proof fn lemma_frame_blocks(pre: Self, post: Self)
        requires
            pre.wf_blocks(),
            post.rules@.len() == pre.rules@.len(),
            post.declaration_blocks@ == pre.declaration_blocks@,
            post.declarations@.len() == pre.declarations@.len(),
            forall|d: int| 0 <= d < pre.declarations@.len() ==>
                (#[trigger] post.declarations@[d]).next_in_block == pre.declarations@[d].next_in_block,
            post.effective_keys@.len() == pre.effective_keys@.len(),
            post.chains@ == pre.chains@,
            post.decl_owner@ == pre.decl_owner@,
            post.decl_pos@ == pre.decl_pos@,
            forall|r: int| 0 <= r < pre.rules@.len() ==> {
                &&& (#[trigger] post.rules@[r]).live == pre.rules@[r].live
                &&& post.rules@[r].declaration_block == pre.rules@[r].declaration_block
            },
        ensures
            post.wf_blocks(),
    {
        reveal(AstContext::wf_blocks);
        let nb = pre.declaration_blocks@.len();
        assert forall|b: int| 0 <= b < nb implies {
            let c = #[trigger] post.chains@[b];
            let rec = post.declaration_blocks@[b];
            &&& c.len() == rec.declaration_count
            &&& rec.first_declaration == declaration_at(c, 0)
            &&& rec.last_declaration == declaration_at(c, c.len() - 1)
            &&& (rec.owner->Rule_0.0 as int) < post.rules@.len()
            &&& post.rules@[rec.owner->Rule_0.0 as int].declaration_block == Some(DeclarationBlockId(b as u32))
            &&& rec.live == post.rules@[rec.owner->Rule_0.0 as int].live
            &&& (rec.effective_key.0 as int) < post.effective_keys@.len()
        } by {
            assert(pre.chains@[b] == post.chains@[b]);
            assert(pre.declaration_blocks@[b] == post.declaration_blocks@[b]);
        }
        assert forall|b: int, i: int| 0 <= b < nb && 0 <= i < post.chains@[b].len() implies {
            let d = #[trigger] post.chains@[b][i];
            &&& d < post.declarations@.len()
            &&& post.decl_owner@[d as int] == b
            &&& post.decl_pos@[d as int] == i
            &&& post.declarations@[d as int].next_in_block == declaration_at(post.chains@[b], i + 1)
        } by {
            assert(pre.chains@[b][i] < pre.declarations@.len());
        }
    }

    /// The interning table survives changes that keep the keys and the table.
    pub(super) proof fn lemma_frame_keys(pre: Self, post: Self)
        requires
            pre.wf_keys(),
            post.effective_keys@ == pre.effective_keys@,
            post.effective_key_ids == pre.effective_key_ids,
        ensures
            post.wf_keys(),
    {
        reveal(AstContext::wf_keys);
    }

    /// Store sizes survive changes that keep the size of every store.
    pub(super) proof fn lemma_frame_sizes(pre: Self, post: Self)
        requires
            pre.wf_sizes(),
            post.rules@.len() == pre.rules@.len(),
            post.rule_spans@.len() == pre.rule_spans@.len(),
            post.rule_lists@.len() == pre.rule_lists@.len(),
            post.declaration_blocks@.len() == pre.declaration_blocks@.len(),
            post.declarations@.len() == pre.declarations@.len(),
            post.effective_keys@.len() == pre.effective_keys@.len(),
        ensures
            post.wf_sizes(),
    {
        reveal(AstContext::wf_sizes);
    }

    /// The blocks survive new rules without blocks and any change that keeps
    /// the blocks, chains, ownership links and the liveness of old rules.
    pub(super) proof fn lemma_frame_blocks_grow(pre: Self, post: Self)
        requires
            pre.wf_blocks(),
            post.rules@.len() >= pre.rules@.len(),
            post.declaration_blocks@ == pre.declaration_blocks@,
            post.declarations@ == pre.declarations@,
            post.effective_keys@.len() == pre.effective_keys@.len(),
            post.chains@ == pre.chains@,
            post.decl_owner@ == pre.decl_owner@,
            post.decl_pos@ == pre.decl_pos@,
            forall|r: int| 0 <= r < pre.rules@.len() ==> {
                &&& (#[trigger] post.rules@[r]).live == pre.rules@[r].live
                &&& post.rules@[r].declaration_block == pre.rules@[r].declaration_block
            },
            forall|r: int| pre.rules@.len() <= r < post.rules@.len() ==> (#[trigger] post.rules@[r]).declaration_block is None,
        ensures
            post.wf_blocks(),
    {
        reveal(AstContext::wf_blocks);
        let nb = pre.declaration_blocks@.len();
        assert forall|b: int| 0 <= b < nb implies {
            let c = #[trigger] post.chains@[b];
            let rec = post.declaration_blocks@[b];
            &&& c.len() == rec.declaration_count
            &&& rec.first_declaration == declaration_at(c, 0)
            &&& rec.last_declaration == declaration_at(c, c.len() - 1)
            &&& (rec.owner->Rule_0.0 as int) < post.rules@.len()
            &&& post.rules@[rec.owner->Rule_0.0 as int].declaration_block == Some(DeclarationBlockId(b as u32))
            &&& rec.live == post.rules@[rec.owner->Rule_0.0 as int].live
            &&& (rec.effective_key.0 as int) < post.effective_keys@.len()
        } by {
            assert(pre.chains@[b] == post.chains@[b]);
            assert(pre.declaration_blocks@[b] == post.declaration_blocks@[b]);
        }
        assert forall|b: int, i: int| 0 <= b < nb && 0 <= i < post.chains@[b].len() implies {
            let d = #[trigger] post.chains@[b][i];
            &&& d < post.declarations@.len()
            &&& post.decl_owner@[d as int] == b
            &&& post.decl_pos@[d as int] == i
            &&& post.declarations@[d as int].next_in_block == declaration_at(post.chains@[b], i + 1)
        } by {
            assert(pre.chains@[b][i] < pre.declarations@.len());
        }
    }
}

} // verus!
