//! The compiler-owned AST context: dense rule, list, block and declaration
//! stores together with their direct topology.
//!
//! Rules form a tree of direct rule lists. Independently, every rule record
//! (live or retired) sits on one global source-order chain whose labels
//! increase strictly. Declarations form one chain per declaration block, and
//! every declaration belongs to exactly one chain.

use crate::effective_key::EffectiveKeyData;
use crate::fx_map::{fx_table_contents, fx_table_get, fx_table_insert, fx_table_with_capacity};
use crate::ids::{DeclarationBlockId, DeclarationId, EffectiveKeyId, RuleId, RuleListId, SourceOrderId};
use crate::records::{
    CompilationCapacity, DeclarationBlockOwner, DeclarationBlockRecord, DeclarationOccurrence,
    DeclarationRecord, MergedAdjacentRuleBlocks, MutationError, RetiredRule, RuleList, RuleRecord,
    StyleSheet, DENSE_CAPACITY,
};
use crate::source_order::{spec_label_between, spec_relabeled};
use crate::span::Span;
use rustc_hash::FxHashMap;
use vstd::prelude::*;

mod append;
mod declarations;
mod frame;
mod labels;
mod merge;
mod mutation;
mod topology;
mod traversal;
mod validation;

verus! {

/// The rule at `i` of `s`, if `i` is a position of `s`.
pub open spec fn rule_at(s: Seq<u32>, i: int) -> Option<RuleId> {
    if 0 <= i < s.len() {
        Some(RuleId(s[i]))
    } else {
        None
    }
}

/// The declaration at `i` of `s`, if `i` is a position of `s`.
pub open spec fn declaration_at(s: Seq<u32>, i: int) -> Option<DeclarationId> {
    if 0 <= i < s.len() {
        Some(DeclarationId(s[i]))
    } else {
        None
    }
}

/// Two rule records agree on everything but their links and source label.
pub open spec fn same_rule_fields<R>(a: RuleRecord<R>, b: RuleRecord<R>) -> bool {
    &&& a.payload == b.payload
    &&& a.parent == b.parent
    &&& a.parent_list == b.parent_list
    &&& a.child_list == b.child_list
    &&& a.declaration_block == b.declaration_block
    &&& a.revision == b.revision
    &&& a.live == b.live
}

/// `rec` with its source-order label replaced by `label`.
pub open spec fn with_label<R>(rec: RuleRecord<R>, label: u64) -> RuleRecord<R> {
    RuleRecord {
        payload: rec.payload,
        source_order_id: SourceOrderId(label),
        parent: rec.parent,
        parent_list: rec.parent_list,
        previous_sibling: rec.previous_sibling,
        next_sibling: rec.next_sibling,
        previous_in_source: rec.previous_in_source,
        next_in_source: rec.next_in_source,
        child_list: rec.child_list,
        declaration_block: rec.declaration_block,
        revision: rec.revision,
        live: rec.live,
    }
}

/// `rec` with its successor in source order replaced by `next`.
pub open spec fn with_next_in_source<R>(rec: RuleRecord<R>, next: Option<RuleId>) -> RuleRecord<R> {
    RuleRecord { next_in_source: next, ..rec }
}

/// `rec` with its predecessor in source order replaced by `previous`.
pub open spec fn with_previous_in_source<R>(rec: RuleRecord<R>, previous: Option<RuleId>) -> RuleRecord<R> {
    RuleRecord { previous_in_source: previous, ..rec }
}

/// `rec` with its next direct sibling replaced by `next`.
pub open spec fn with_next_sibling<R>(rec: RuleRecord<R>, next: Option<RuleId>) -> RuleRecord<R> {
    RuleRecord { next_sibling: next, ..rec }
}

/// `rec` with its previous direct sibling replaced by `previous`.
pub open spec fn with_previous_sibling<R>(rec: RuleRecord<R>, previous: Option<RuleId>) -> RuleRecord<R> {
    RuleRecord { previous_sibling: previous, ..rec }
}

/// The declaration side of `a` (blocks, their chains, declarations and
/// effective keys) equals that of `b`.
pub open spec fn same_declaration_side<R, D>(a: &AstContext<R, D>, b: &AstContext<R, D>) -> bool {
    &&& a.block_count() == b.block_count()
    &&& forall|x: int| 0 <= x < a.block_count() ==> #[trigger] a.spec_block(x) == b.spec_block(x)
    &&& forall|x: int| 0 <= x < a.block_count() ==> #[trigger] a.chain(x) == b.chain(x)
    &&& a.declaration_count() == b.declaration_count()
    &&& forall|d: int| 0 <= d < a.declaration_count() ==> #[trigger] a.spec_declaration(d) == b.spec_declaration(d)
    &&& a.key_count() == b.key_count()
    &&& forall|k: int| 0 <= k < a.key_count() ==> #[trigger] a.spec_key(k) == b.spec_key(k)
    &&& a.spec_stylesheet() == b.spec_stylesheet()
    &&& a.spec_license_comments() == b.spec_license_comments()
}

/// The rule side of `a` (rules, spans, lists and source order) equals that
/// of `b`.
pub open spec fn same_rule_side<R, D>(a: &AstContext<R, D>, b: &AstContext<R, D>) -> bool {
    &&& a.rule_count() == b.rule_count()
    &&& forall|x: int| 0 <= x < a.rule_count() ==> #[trigger] a.spec_rule(x) == b.spec_rule(x)
    &&& forall|x: int| 0 <= x < a.rule_count() ==> #[trigger] a.spec_rule_span(x) == b.spec_rule_span(x)
    &&& a.source_seq() == b.source_seq()
    &&& same_lists_except(a, b, -1)
    &&& a.spec_stylesheet() == b.spec_stylesheet()
    &&& a.spec_license_comments() == b.spec_license_comments()
}

/// The declaration blocks of `a` equal those of `b`, except possibly block `x`.
pub open spec fn same_blocks_except<R, D>(a: &AstContext<R, D>, b: &AstContext<R, D>, x: int) -> bool {
    &&& a.block_count() == b.block_count()
    &&& forall|y: int| 0 <= y < a.block_count() && y != x ==> #[trigger] a.spec_block(y) == b.spec_block(y)
    &&& forall|y: int| 0 <= y < a.block_count() && y != x ==> #[trigger] a.chain(y) == b.chain(y)
}

/// `x + 1`, wrapping to zero past `u32::MAX`.
pub open spec fn wrapping_inc(x: u32) -> u32 {
    if x == u32::MAX {
        0
    } else {
        (x + 1) as u32
    }
}

/// The rule lists of `a` equal those of `b`, except possibly list `l`.
pub open spec fn same_lists_except<R, D>(a: &AstContext<R, D>, b: &AstContext<R, D>, l: int) -> bool {
    &&& a.list_count() == b.list_count()
    &&& forall|m: int| 0 <= m < a.list_count() && m != l ==> #[trigger] a.spec_list(m) == b.spec_list(m)
    &&& forall|m: int| 0 <= m < a.list_count() && m != l ==> #[trigger] a.list_seq(m) == b.list_seq(m)
}

/// Indexing a sequence after an insertion at `k`.
pub proof fn lemma_insert_index(s: Seq<u32>, k: int, v: u32)
    requires
        0 <= k <= s.len(),
    ensures
        s.insert(k, v).len() == s.len() + 1,
        forall|i: int| 0 <= i < s.len() + 1 ==> #[trigger] s.insert(k, v)[i] == (if i < k {
            s[i]
        } else if i == k {
            v
        } else {
            s[i - 1]
        }),
{
    s.insert_ensures(k, v);
    assert forall|i: int| 0 <= i < s.len() + 1 implies #[trigger] s.insert(k, v)[i] == (if i < k {
        s[i]
    } else if i == k {
        v
    } else {
        s[i - 1]
    }) by {
        if i > k {
            assert(s.insert(k, v)[(i - 1) + 1] == s[i - 1]);
        }
    }
}

/// A sequence of distinct values below `n` has at most `n` elements.
pub proof fn lemma_distinct_below_len(s: Seq<u32>, n: int)
    requires
        0 <= n,
        forall|i: int| 0 <= i < s.len() ==> (s[i] as int) < n,
        forall|i: int, j: int| 0 <= i < j < s.len() ==> s[i] != s[j],
    ensures
        s.len() <= n,
    decreases n,
{
    if n == 0 {
        if s.len() > 0 {
            assert((s[0] as int) < 0);
        }
    } else if exists|i: int| 0 <= i < s.len() && s[i] == n - 1 {
        let i = choose|i: int| 0 <= i < s.len() && s[i] == n - 1;
        let t = s.remove(i);
        assert forall|a: int| 0 <= a < t.len() implies (t[a] as int) < n - 1 by {
            if a < i {
                assert(t[a] == s[a]);
                assert(s[a] != s[i]);
            } else {
                assert(t[a] == s[a + 1]);
                assert(s[i] != s[a + 1]);
            }
        }
        assert forall|a: int, b: int| 0 <= a < b < t.len() implies t[a] != t[b] by {
            if b < i {
                assert(t[a] == s[a] && t[b] == s[b]);
            } else if a < i {
                assert(t[a] == s[a] && t[b] == s[b + 1]);
            } else {
                assert(t[a] == s[a + 1] && t[b] == s[b + 1]);
            }
        }
        lemma_distinct_below_len(t, n - 1);
    } else {
        lemma_distinct_below_len(s, n - 1);
    }
}

/// Compiler-owned AST data and the only access boundary for its stores.
pub struct AstContext<R, D> {
    stylesheet: StyleSheet,
    license_comments: Vec<String>,
    rules: Vec<RuleRecord<R>>,
    rule_spans: Vec<Span>,
    rule_lists: Vec<RuleList>,
    declaration_blocks: Vec<DeclarationBlockRecord>,
    declarations: Vec<DeclarationRecord<D>>,
    effective_keys: Vec<EffectiveKeyData>,
    effective_key_ids: FxHashMap<(u128, u8), u32>,
    first_rule_in_source: Option<RuleId>,
    last_rule_in_source: Option<RuleId>,
    /// All rules, live and retired, in global source order.
    source: Ghost<Seq<u32>>,
    /// Position of each rule in `source`.
    source_pos: Ghost<Seq<int>>,
    /// The live rules of each list, in sibling order.
    lists: Ghost<Seq<Seq<u32>>>,
    /// Position of each live rule in its list.
    list_pos: Ghost<Seq<int>>,
    /// The declarations of each block, in chain order.
    chains: Ghost<Seq<Seq<u32>>>,
    /// The block whose chain holds each declaration.
    decl_owner: Ghost<Seq<int>>,
    /// Position of each declaration in its chain.
    decl_pos: Ghost<Seq<int>>,
}

/// Compiler-owned AST context; the dense rule topology under its older name.
pub type RadixCompilation<R, D> = AstContext<R, D>;

impl<R, D> AstContext<R, D> {
    // ---------------------------------------------------------------
    // Abstract state
    // ---------------------------------------------------------------

    /// Number of rule records.
    pub closed spec fn rule_count(&self) -> nat {
        self.rules@.len()
    }

    /// The rule record at `r`.
    pub closed spec fn spec_rule(&self, r: int) -> RuleRecord<R> {
        self.rules@[r]
    }

    /// The source span stored beside the rule record at `r`.
    pub closed spec fn spec_rule_span(&self, r: int) -> Span {
        self.rule_spans@[r]
    }

    /// Every rule record, live and retired, in global source order.
    pub closed spec fn source_seq(&self) -> Seq<u32> {
        self.source@
    }

    /// Number of rule lists.
    pub closed spec fn list_count(&self) -> nat {
        self.rule_lists@.len()
    }

    /// The rule list record at `l`.
    pub closed spec fn spec_list(&self, l: int) -> RuleList {
        self.rule_lists@[l]
    }

    /// The live rules of list `l`, in sibling order.
    pub closed spec fn list_seq(&self, l: int) -> Seq<u32> {
        self.lists@[l]
    }

    /// Number of declaration blocks.
    pub closed spec fn block_count(&self) -> nat {
        self.declaration_blocks@.len()
    }

    /// The declaration block record at `b`.
    pub closed spec fn spec_block(&self, b: int) -> DeclarationBlockRecord {
        self.declaration_blocks@[b]
    }

    /// The declarations of block `b`, in chain order.
    pub closed spec fn chain(&self, b: int) -> Seq<u32> {
        self.chains@[b]
    }

    /// Number of declaration records.
    pub closed spec fn declaration_count(&self) -> nat {
        self.declarations@.len()
    }

    /// The declaration record at `d`.
    pub closed spec fn spec_declaration(&self, d: int) -> DeclarationRecord<D> {
        self.declarations@[d]
    }

    /// The payloads of block `b`, in chain order.
    pub closed spec fn chain_payloads(&self, b: int) -> Seq<D> {
        self.chains@[b].map_values(|d: u32| self.declarations@[d as int].payload)
    }

    /// Number of interned effective keys.
    pub closed spec fn key_count(&self) -> nat {
        self.effective_keys@.len()
    }

    /// The interned effective key at `k`.
    pub closed spec fn spec_key(&self, k: int) -> EffectiveKeyData {
        self.effective_keys@[k]
    }

    /// The root of the compilation.
    pub closed spec fn spec_stylesheet(&self) -> StyleSheet {
        self.stylesheet
    }

    /// The stored head of the global source chain.
    pub closed spec fn spec_first_rule_in_source(&self) -> Option<RuleId> {
        self.first_rule_in_source
    }

    /// The stored tail of the global source chain.
    pub closed spec fn spec_last_rule_in_source(&self) -> Option<RuleId> {
        self.last_rule_in_source
    }

    /// The license comments pushed so far.
    pub closed spec fn spec_license_comments(&self) -> Seq<String> {
        self.license_comments@
    }

    // ---------------------------------------------------------------
    // Well-formedness
    // ---------------------------------------------------------------

    /// Store sizes fit the dense identities and the span sidecar is aligned.
    #[verifier::opaque]
    pub closed spec fn wf_sizes(&self) -> bool {
        &&& self.rules@.len() <= DENSE_CAPACITY
        &&& self.rule_spans@.len() == self.rules@.len()
        &&& self.rule_lists@.len() <= DENSE_CAPACITY
        &&& self.declaration_blocks@.len() <= DENSE_CAPACITY
        &&& self.declarations@.len() <= DENSE_CAPACITY
        &&& self.effective_keys@.len() <= DENSE_CAPACITY
    }

    /// The global source chain visits every rule once, its links agree with
    /// the chain, and its labels increase strictly.
    #[verifier::opaque]
    pub closed spec fn wf_source(&self) -> bool {
        let n = self.rules@.len();
        let s = self.source@;
        &&& s.len() == n
        &&& self.source_pos@.len() == n
        &&& forall|i: int| 0 <= i < n ==> (#[trigger] s[i]) < n && self.source_pos@[s[i] as int] == i
        &&& forall|r: int| 0 <= r < n ==> 0 <= #[trigger] self.source_pos@[r] < n && s[self.source_pos@[r]] == r
        &&& self.first_rule_in_source == rule_at(s, 0)
        &&& self.last_rule_in_source == rule_at(s, n - 1)
        &&& forall|i: int| 0 <= i < n ==> {
            &&& (#[trigger] self.rules@[s[i] as int]).previous_in_source == rule_at(s, i - 1)
            &&& self.rules@[s[i] as int].next_in_source == rule_at(s, i + 1)
        }
        &&& forall|i: int, j: int| 0 <= i < j < n ==>
            (#[trigger] self.rules@[s[i] as int]).source_order_id.0 < (#[trigger] self.rules@[s[j] as int]).source_order_id.0
    }

    /// Each list holds exactly its live rules, with consistent sibling links.
    #[verifier::opaque]
    pub closed spec fn wf_lists(&self) -> bool {
        let n = self.rules@.len();
        let nl = self.rule_lists@.len();
        &&& nl >= 1
        &&& self.stylesheet.root_rules == RuleListId(0)
        &&& self.rule_lists@[0].parent is None
        &&& self.lists@.len() == nl
        &&& self.list_pos@.len() == n
        &&& forall|l: int| 0 <= l < nl ==> {
            let s = #[trigger] self.lists@[l];
            &&& s.len() == self.rule_lists@[l].live_len
            &&& self.rule_lists@[l].first == rule_at(s, 0)
            &&& self.rule_lists@[l].last == rule_at(s, s.len() - 1)
        }
        &&& forall|l: int, i: int| 0 <= l < nl && 0 <= i < self.lists@[l].len() ==> {
            let r = #[trigger] self.lists@[l][i];
            &&& r < n
            &&& self.rules@[r as int].live
            &&& self.rules@[r as int].parent_list == RuleListId(l as u32)
            &&& self.list_pos@[r as int] == i
            &&& self.rules@[r as int].previous_sibling == rule_at(self.lists@[l], i - 1)
            &&& self.rules@[r as int].next_sibling == rule_at(self.lists@[l], i + 1)
        }
        &&& forall|r: int| 0 <= r < n ==> {
            let rec = #[trigger] self.rules@[r];
            &&& (rec.parent_list.0 as int) < nl
            &&& rec.parent == self.rule_lists@[rec.parent_list.0 as int].parent
            &&& (rec.live ==> 0 <= self.list_pos@[r] < self.lists@[rec.parent_list.0 as int].len()
                && self.lists@[rec.parent_list.0 as int][self.list_pos@[r]] == r)
            &&& (!rec.live ==> rec.previous_sibling is None && rec.next_sibling is None)
        }
    }

    /// Child lists and their owners refer to each other, owners are live,
    /// and a parent is always allocated before its children.
    #[verifier::opaque]
    pub closed spec fn wf_tree(&self) -> bool {
        let n = self.rules@.len();
        let nl = self.rule_lists@.len();
        &&& forall|l: int| 0 <= l < nl ==> match (#[trigger] self.rule_lists@[l]).parent {
            Some(p) => (p.0 as int) < n && self.rules@[p.0 as int].live
                && self.rules@[p.0 as int].child_list == Some(RuleListId(l as u32)),
            None => true,
        }
        &&& forall|r: int| 0 <= r < n ==> {
            let rec = #[trigger] self.rules@[r];
            &&& (rec.child_list matches Some(c) ==> (c.0 as int) < nl
                && self.rule_lists@[c.0 as int].parent == Some(RuleId(r as u32)))
            &&& (rec.parent matches Some(p) ==> (p.0 as int) < r)
        }
    }

    /// Every declaration sits in exactly one block chain; chain links and
    /// endpoints agree; blocks and their owner rules refer to each other.
    #[verifier::opaque]
    pub closed spec fn wf_blocks(&self) -> bool {
        let n = self.rules@.len();
        let nb = self.declaration_blocks@.len();
        let nd = self.declarations@.len();
        &&& self.chains@.len() == nb
        &&& self.decl_owner@.len() == nd
        &&& self.decl_pos@.len() == nd
        &&& forall|b: int| 0 <= b < nb ==> {
            let c = #[trigger] self.chains@[b];
            let rec = self.declaration_blocks@[b];
            &&& c.len() == rec.declaration_count
            &&& rec.first_declaration == declaration_at(c, 0)
            &&& rec.last_declaration == declaration_at(c, c.len() - 1)
            &&& (rec.owner->Rule_0.0 as int) < n
            &&& self.rules@[rec.owner->Rule_0.0 as int].declaration_block == Some(DeclarationBlockId(b as u32))
            &&& rec.live == self.rules@[rec.owner->Rule_0.0 as int].live
            &&& (rec.effective_key.0 as int) < self.effective_keys@.len()
        }
        &&& forall|b: int, i: int| 0 <= b < nb && 0 <= i < self.chains@[b].len() ==> {
            let d = #[trigger] self.chains@[b][i];
            &&& d < nd
            &&& self.decl_owner@[d as int] == b
            &&& self.decl_pos@[d as int] == i
            &&& self.declarations@[d as int].next_in_block == declaration_at(self.chains@[b], i + 1)
        }
        &&& forall|d: int| 0 <= d < nd ==> {
            let b = #[trigger] self.decl_owner@[d];
            &&& 0 <= b < nb
            &&& 0 <= self.decl_pos@[d] < self.chains@[b].len()
            &&& self.chains@[b][self.decl_pos@[d]] == d
        }
        &&& forall|r: int| 0 <= r < n ==> match (#[trigger] self.rules@[r]).declaration_block {
            Some(b) => (b.0 as int) < nb && self.declaration_blocks@[b.0 as int].owner == DeclarationBlockOwner::Rule(RuleId(r as u32)),
            None => true,
        }
    }

    /// The interning table maps exactly the code of each key to its identity.
    #[verifier::opaque]
    pub closed spec fn wf_keys(&self) -> bool {
        let nk = self.effective_keys@.len();
        let table = fx_table_contents(self.effective_key_ids);
        &&& forall|k: int| 0 <= k < nk ==> table.dom().contains((#[trigger] self.effective_keys@[k]).spec_code())
            && table[self.effective_keys@[k].spec_code()] == k
        &&& forall|c: (u128, u8)| #[trigger] table.dom().contains(c) ==> (table[c] as int) < nk
            && self.effective_keys@[table[c] as int].spec_code() == c
    }

    /// Position of rule `r` in global source order.
    pub closed spec fn source_position(&self, r: int) -> int {
        self.source_pos@[r]
    }

    /// The source-order label of an optional rule.
    pub closed spec fn label_of(&self, r: Option<RuleId>) -> Option<u64> {
        match r {
            Some(id) => Some(self.rules@[id.0 as int].source_order_id.0),
            None => None,
        }
    }

    /// The label an optional rule would get if every rule were relabelled.
    pub closed spec fn relabeled_label_of(&self, r: Option<RuleId>) -> Option<u64> {
        match r {
            Some(id) => Some(spec_relabeled(self.rules@.len(), self.source_pos@[id.0 as int]) as u64),
            None => None,
        }
    }

    /// `self` equals `other` except for source-order labels.
    pub closed spec fn same_except_labels(&self, other: &Self) -> bool {
        &&& self.stylesheet == other.stylesheet
        &&& self.license_comments@ == other.license_comments@
        &&& self.rules@.len() == other.rules@.len()
        &&& forall|r: int| 0 <= r < self.rules@.len() ==>
            (#[trigger] self.rules@[r]) == with_label(other.rules@[r], self.rules@[r].source_order_id.0)
        &&& self.rule_spans@ == other.rule_spans@
        &&& self.rule_lists@ == other.rule_lists@
        &&& self.declaration_blocks@ == other.declaration_blocks@
        &&& self.declarations@ == other.declarations@
        &&& self.effective_keys@ == other.effective_keys@
        &&& self.effective_key_ids == other.effective_key_ids
        &&& self.first_rule_in_source == other.first_rule_in_source
        &&& self.last_rule_in_source == other.last_rule_in_source
        &&& self.source@ == other.source@
        &&& self.source_pos@ == other.source_pos@
        &&& self.lists@ == other.lists@
        &&& self.list_pos@ == other.list_pos@
        &&& self.chains@ == other.chains@
        &&& self.decl_owner@ == other.decl_owner@
        &&& self.decl_pos@ == other.decl_pos@
    }

    /// `self` is `other` with every rule relabelled by its source position.
    pub closed spec fn is_relabeling_of(&self, other: &Self) -> bool {
        &&& self.same_except_labels(other)
        &&& forall|r: int| 0 <= r < self.rules@.len() ==>
            (#[trigger] self.rules@[r]).source_order_id.0 == spec_relabeled(self.rules@.len(), self.source_pos@[r])
    }

    /// Every store and its topology equal those of `other`.
    pub closed spec fn same_stores(&self, other: &Self) -> bool {
        &&& self.stylesheet == other.stylesheet
        &&& self.rules@ == other.rules@
        &&& self.rule_spans@ == other.rule_spans@
        &&& self.rule_lists@ == other.rule_lists@
        &&& self.declaration_blocks@ == other.declaration_blocks@
        &&& self.declarations@ == other.declarations@
        &&& self.effective_keys@ == other.effective_keys@
        &&& self.source@ == other.source@
        &&& self.lists@ == other.lists@
        &&& self.chains@ == other.chains@
    }

    /// The last live rule of the lexical subtree rooted at rule `r`: follow
    /// last children down from `r` while they exist.
    pub closed spec fn spec_subtree_tail(&self, r: int) -> Option<RuleId>
        decreases self.rule_count() - r,
    {
        let n = self.rules@.len();
        if !(0 <= r < n) || !self.rules@[r].live {
            None
        } else {
            match self.rules@[r].child_list {
                None => Some(RuleId(r as u32)),
                Some(c) => {
                    if (c.0 as int) < self.rule_lists@.len() {
                        match self.rule_lists@[c.0 as int].last {
                            None => Some(RuleId(r as u32)),
                            Some(x) => {
                                if r < x.0 && x.0 < n {
                                    self.spec_subtree_tail(x.0 as int)
                                } else {
                                    None
                                }
                            },
                        }
                    } else {
                        None
                    }
                },
            }
        }
    }

    /// The first rule after the whole subtree of rule `r` in tree preorder:
    /// the next sibling of `r` or of its nearest ancestor that has one.
    pub closed spec fn spec_next_after_subtree(&self, r: int) -> Option<RuleId>
        decreases r,
    {
        let n = self.rules@.len();
        if !(0 <= r < n) || !self.rules@[r].live {
            None
        } else {
            match self.rules@[r].next_sibling {
                Some(s) => Some(s),
                None => match self.rules@[r].parent {
                    None => None,
                    Some(p) => {
                        if 0 <= p.0 < r {
                            self.spec_next_after_subtree(p.0 as int)
                        } else {
                            None
                        }
                    },
                },
            }
        }
    }

    /// Position of live rule `r` in its list.
    pub closed spec fn list_position(&self, r: int) -> int {
        self.list_pos@[r]
    }

    /// Source position of the last rule of `after`'s subtree.
    pub closed spec fn subtree_tail_position(&self, after: int) -> int {
        self.source_pos@[self.spec_subtree_tail(after).unwrap().0 as int]
    }

    /// The source position a rule inserted after `after` takes: that of the
    /// first rule after `after`'s subtree, or the end of the chain; `-1` when
    /// that rule does not come after the subtree's tail in source order.
    pub closed spec fn insertion_position(&self, after: int) -> int {
        let t = self.subtree_tail_position(after);
        match self.spec_next_after_subtree(after) {
            Some(b) => if t < self.source_pos@[b.0 as int] {
                self.source_pos@[b.0 as int]
            } else {
                -1
            },
            None => self.rules@.len() as int,
        }
    }

    /// Only retired rules lie between the end of `after`'s subtree and the
    /// insertion position in source order.
    pub closed spec fn insertion_gap_is_retired(&self, after: int) -> bool {
        let t = self.subtree_tail_position(after);
        let e = self.insertion_position(after);
        &&& e >= 0
        &&& forall|p: int| t < p < e ==> !(#[trigger] self.rules@[self.source@[p] as int]).live
    }

    /// The source position of the first live rule strictly between source
    /// positions `lo` and `hi`, if there is one.
    pub closed spec fn first_live_between(&self, lo: int, hi: int) -> Option<int> {
        if exists|p: int| lo < p < hi && (#[trigger] self.rules@[self.source@[p] as int]).live {
            Some(choose|p: int| lo < p < hi && (#[trigger] self.rules@[self.source@[p] as int]).live
                && forall|q: int| lo < q < p ==> !(#[trigger] self.rules@[self.source@[q] as int]).live)
        } else {
            None
        }
    }

    /// The declaration blocks of the rules at source positions `lo..hi`, in
    /// source order.
    pub closed spec fn blocks_at(&self, lo: int, hi: int) -> Seq<DeclarationBlockId>
        decreases hi - lo,
    {
        if hi <= lo {
            Seq::empty()
        } else {
            let rest = self.blocks_at(lo, hi - 1);
            match self.rules@[self.source@[hi - 1] as int].declaration_block {
                Some(b) => rest.push(b),
                None => rest,
            }
        }
    }

    /// The chains of `blocks`, concatenated in order.
    pub closed spec fn concat_chains(&self, blocks: Seq<DeclarationBlockId>) -> Seq<u32>
        decreases blocks.len(),
    {
        if blocks.len() == 0 {
            Seq::empty()
        } else {
            self.chain(blocks[0].0 as int) + self.concat_chains(blocks.subrange(1, blocks.len() as int))
        }
    }

    /// The context is well formed.
    pub closed spec fn wf(&self) -> bool {
        &&& self.wf_sizes()
        &&& self.wf_source()
        &&& self.wf_lists()
        &&& self.wf_tree()
        &&& self.wf_blocks()
        &&& self.wf_keys()
    }
}


impl<R, D> AstContext<R, D> {
    /// Creates an empty compilation holding only the root rule list.
    pub fn new_in() -> (r: Self)
        ensures
            r.wf(),
            r.rule_count() == 0,
            r.list_count() == 1,
            r.spec_list(0) == (RuleList { parent: None, first: None, last: None, live_len: 0 }),
            r.list_seq(0) == Seq::<u32>::empty(),
            r.block_count() == 0,
            r.declaration_count() == 0,
            r.key_count() == 0,
            r.spec_stylesheet().root_rules == RuleListId(0),
            r.spec_license_comments() == Seq::<String>::empty(),
    {
        Self::with_capacity_in(CompilationCapacity {
            rules: 0,
            rule_lists: 0,
            declaration_blocks: 0,
            declarations: 0,
            selectors: 0,
            contexts: 0,
        })
    }

    /// Creates an empty compilation with room for the expected AST shape.
    pub fn with_capacity_in(capacity: CompilationCapacity) -> (r: Self)
        ensures
            r.wf(),
            r.rule_count() == 0,
            r.list_count() == 1,
            r.spec_list(0) == (RuleList { parent: None, first: None, last: None, live_len: 0 }),
            r.list_seq(0) == Seq::<u32>::empty(),
            r.block_count() == 0,
            r.declaration_count() == 0,
            r.key_count() == 0,
            r.spec_stylesheet().root_rules == RuleListId(0),
            r.spec_license_comments() == Seq::<String>::empty(),
    {
        let list_capacity = if capacity.rule_lists == 0 { 1 } else { capacity.rule_lists };
        let mut rule_lists: Vec<RuleList> = Vec::with_capacity(list_capacity);
        rule_lists.push(RuleList { parent: None, first: None, last: None, live_len: 0 });
        let ghost empty_lists: Seq<Seq<u32>> = seq![Seq::<u32>::empty()];
        let r = AstContext {
            stylesheet: StyleSheet { root_rules: RuleListId(0) },
            license_comments: Vec::new(),
            rules: Vec::with_capacity(capacity.rules),
            rule_spans: Vec::with_capacity(capacity.rules),
            rule_lists,
            declaration_blocks: Vec::with_capacity(capacity.declaration_blocks),
            declarations: Vec::with_capacity(capacity.declarations),
            effective_keys: Vec::with_capacity(capacity.declaration_blocks),
            effective_key_ids: fx_table_with_capacity(capacity.declaration_blocks),
            first_rule_in_source: None,
            last_rule_in_source: None,
            source: Ghost(Seq::empty()),
            source_pos: Ghost(Seq::empty()),
            lists: Ghost(empty_lists),
            list_pos: Ghost(Seq::empty()),
            chains: Ghost(Seq::empty()),
            decl_owner: Ghost(Seq::empty()),
            decl_pos: Ghost(Seq::empty()),
        };
        proof {
            reveal(AstContext::wf_sizes);
            reveal(AstContext::wf_source);
            reveal(AstContext::wf_lists);
            reveal(AstContext::wf_tree);
            reveal(AstContext::wf_blocks);
            reveal(AstContext::wf_keys);
            assert(fx_table_contents(r.effective_key_ids).dom() =~= Set::<(u128, u8)>::empty());
        }
        r
    }

    /// The root of the compilation.
    pub fn stylesheet(&self) -> (r: StyleSheet)
        ensures
            r == self.spec_stylesheet(),
    {
        self.stylesheet
    }

    /// The first rule in global source order.
    pub fn first_rule_in_source(&self) -> (r: Option<RuleId>)
        requires
            self.wf(),
        ensures
            r == rule_at(self.source_seq(), 0),
    {
        proof {
            reveal(AstContext::wf_source);
        }
        self.first_rule_in_source
    }

    /// The license comments pushed so far, in push order.
    pub fn license_comments(&self) -> (r: &Vec<String>)
        ensures
            r@ == self.spec_license_comments(),
    {
        &self.license_comments
    }

    /// Records one license comment.
    pub fn push_license_comment(&mut self, comment: String)
        requires
            old(self).wf(),
        ensures
            final(self).wf(),
            final(self).spec_license_comments() == old(self).spec_license_comments().push(comment),
            final(self).same_stores(old(self)),
    {
        self.license_comments.push(comment);
        proof {
            reveal(AstContext::wf_sizes);
            reveal(AstContext::wf_source);
            reveal(AstContext::wf_lists);
            reveal(AstContext::wf_tree);
            reveal(AstContext::wf_blocks);
            reveal(AstContext::wf_keys);
        }
    }

    /// The rule record with identity `id`, if it exists.
    pub fn rule(&self, id: RuleId) -> (r: Option<&RuleRecord<R>>)
        ensures
            r is Some <==> (id.0 as int) < self.rule_count(),
            r matches Some(rec) ==> *rec == self.spec_rule(id.0 as int),
    {
        if (id.0 as usize) < self.rules.len() {
            Some(&self.rules[id.0 as usize])
        } else {
            None
        }
    }

    /// The source span stored beside the rule record `id`.
    pub fn rule_span(&self, id: RuleId) -> (r: Option<Span>)
        requires
            self.wf(),
        ensures
            r == (if (id.0 as int) < self.rule_count() { Some(self.spec_rule_span(id.0 as int)) } else { None }),
    {
        proof {
            reveal(AstContext::wf_sizes);
        }
        if (id.0 as usize) < self.rule_spans.len() {
            Some(self.rule_spans[id.0 as usize])
        } else {
            None
        }
    }

    /// The rule list with identity `id`, if it exists.
    pub fn rule_list(&self, id: RuleListId) -> (r: Option<&RuleList>)
        ensures
            r is Some <==> (id.0 as int) < self.list_count(),
            r matches Some(rec) ==> *rec == self.spec_list(id.0 as int),
    {
        if (id.0 as usize) < self.rule_lists.len() {
            Some(&self.rule_lists[id.0 as usize])
        } else {
            None
        }
    }

    /// The declaration block with identity `id`, if it exists.
    pub fn declaration_block(&self, id: DeclarationBlockId) -> (r: Option<&DeclarationBlockRecord>)
        ensures
            r is Some <==> (id.0 as int) < self.block_count(),
            r matches Some(rec) ==> *rec == self.spec_block(id.0 as int),
    {
        if (id.0 as usize) < self.declaration_blocks.len() {
            Some(&self.declaration_blocks[id.0 as usize])
        } else {
            None
        }
    }

    /// Number of declaration blocks.
    pub fn declaration_block_count(&self) -> (r: usize)
        ensures
            r == self.block_count(),
    {
        self.declaration_blocks.len()
    }

    /// Number of rule lists.
    pub fn rule_list_count(&self) -> (r: usize)
        ensures
            r == self.list_count(),
    {
        self.rule_lists.len()
    }

    /// The declaration record with identity `id`, if it exists.
    pub fn declaration(&self, id: DeclarationId) -> (r: Option<&DeclarationRecord<D>>)
        ensures
            r is Some <==> (id.0 as int) < self.declaration_count(),
            r matches Some(rec) ==> *rec == self.spec_declaration(id.0 as int),
    {
        if (id.0 as usize) < self.declarations.len() {
            Some(&self.declarations[id.0 as usize])
        } else {
            None
        }
    }

    /// The declaration record at dense offset `index`, if it exists.
    pub fn declaration_at_index(&self, index: usize) -> (r: Option<&DeclarationRecord<D>>)
        ensures
            r is Some <==> index < self.declaration_count(),
            r matches Some(rec) ==> *rec == self.spec_declaration(index as int),
    {
        if index < self.declarations.len() {
            Some(&self.declarations[index])
        } else {
            None
        }
    }

    /// The interned effective key with identity `id`, if it exists.
    pub fn effective_key(&self, id: EffectiveKeyId) -> (r: Option<&EffectiveKeyData>)
        ensures
            r is Some <==> (id.0 as int) < self.key_count(),
            r matches Some(key) ==> *key == self.spec_key(id.0 as int),
    {
        if (id.0 as usize) < self.effective_keys.len() {
            Some(&self.effective_keys[id.0 as usize])
        } else {
            None
        }
    }

    /// `self` is `old` with at most the record of rule `x`, block `b` and
    /// declaration `d` replaced; every other store and the ghost model are
    /// unchanged.
    pub closed spec fn same_except_records(&self, old: &Self, x: int, b: int, d: int) -> bool {
        &&& self.stylesheet == old.stylesheet
        &&& self.license_comments@ == old.license_comments@
        &&& self.rules@.len() == old.rules@.len()
        &&& forall|y: int| 0 <= y < self.rules@.len() && y != x ==> #[trigger] self.rules@[y] == old.rules@[y]
        &&& self.rule_spans@ == old.rule_spans@
        &&& self.rule_lists@ == old.rule_lists@
        &&& self.declaration_blocks@.len() == old.declaration_blocks@.len()
        &&& forall|y: int| 0 <= y < self.declaration_blocks@.len() && y != b ==> #[trigger] self.declaration_blocks@[y] == old.declaration_blocks@[y]
        &&& self.declarations@.len() == old.declarations@.len()
        &&& forall|y: int| 0 <= y < self.declarations@.len() && y != d ==> #[trigger] self.declarations@[y] == old.declarations@[y]
        &&& self.effective_keys@ == old.effective_keys@
        &&& self.effective_key_ids == old.effective_key_ids
        &&& self.first_rule_in_source == old.first_rule_in_source
        &&& self.last_rule_in_source == old.last_rule_in_source
        &&& self.source == old.source
        &&& self.source_pos == old.source_pos
        &&& self.lists == old.lists
        &&& self.list_pos == old.list_pos
        &&& self.chains == old.chains
        &&& self.decl_owner == old.decl_owner
        &&& self.decl_pos == old.decl_pos
    }

    /// Direct mutable access to a rule record. Whatever is written through
    /// it becomes the record; the caller takes over the context's
    /// consistency, which [`Self::validate_ast`] checks.
    pub fn rule_mut(&mut self, id: RuleId) -> (r: Option<&mut RuleRecord<R>>)
        ensures
            (id.0 as int) >= old(self).rule_count() ==> r is None && *final(self) == *old(self),
            (id.0 as int) < old(self).rule_count() ==> {
                &&& r is Some
                &&& *r->0 == old(self).spec_rule(id.0 as int)
                &&& final(self).spec_rule(id.0 as int) == *final(r->0)
                &&& final(self).same_except_records(old(self), id.0 as int, -1, -1)
            },
    {
        if (id.0 as usize) < self.rules.len() {
            Some(&mut self.rules[id.0 as usize])
        } else {
            None
        }
    }

    /// Direct mutable access to a declaration block record; the caller takes
    /// over the context's consistency, which [`Self::validate_ast`] checks.
    pub fn declaration_block_mut(&mut self, id: DeclarationBlockId) -> (r: Option<&mut DeclarationBlockRecord>)
        ensures
            (id.0 as int) >= old(self).block_count() ==> r is None && *final(self) == *old(self),
            (id.0 as int) < old(self).block_count() ==> {
                &&& r is Some
                &&& *r->0 == old(self).spec_block(id.0 as int)
                &&& final(self).spec_block(id.0 as int) == *final(r->0)
                &&& final(self).same_except_records(old(self), -1, id.0 as int, -1)
            },
    {
        if (id.0 as usize) < self.declaration_blocks.len() {
            Some(&mut self.declaration_blocks[id.0 as usize])
        } else {
            None
        }
    }

    /// Direct mutable access to a declaration record; the caller takes over
    /// the context's consistency, which [`Self::validate_ast`] checks.
    pub fn declaration_mut(&mut self, id: DeclarationId) -> (r: Option<&mut DeclarationRecord<D>>)
        ensures
            (id.0 as int) >= old(self).declaration_count() ==> r is None && *final(self) == *old(self),
            (id.0 as int) < old(self).declaration_count() ==> {
                &&& r is Some
                &&& *r->0 == old(self).spec_declaration(id.0 as int)
                &&& final(self).spec_declaration(id.0 as int) == *final(r->0)
                &&& final(self).same_except_records(old(self), -1, -1, id.0 as int)
            },
    {
        if (id.0 as usize) < self.declarations.len() {
            Some(&mut self.declarations[id.0 as usize])
        } else {
            None
        }
    }

    /// The source-order label of a block, read through its owner rule.
    pub fn declaration_block_source_order_id(&self, block: DeclarationBlockId) -> (r: Option<SourceOrderId>)
        requires
            self.wf(),
        ensures
            r == (if (block.0 as int) < self.block_count() {
                Some(self.spec_rule(self.spec_block(block.0 as int).owner->Rule_0.0 as int).source_order_id)
            } else {
                None
            }),
    {
        proof {
            reveal(AstContext::wf_blocks);
        }
        if (block.0 as usize) >= self.declaration_blocks.len() {
            return None;
        }
        let DeclarationBlockOwner::Rule(owner) = self.declaration_blocks[block.0 as usize].owner;
        proof {
            assert(self.chains@[block.0 as int] == self.chains@[block.0 as int]);
        }
        if (owner.0 as usize) < self.rules.len() {
            Some(self.rules[owner.0 as usize].source_order_id)
        } else {
            None
        }
    }
}


} // verus!

verus! {

impl<R, D> AstContext<R, D> {
    /// Source-order labels increase strictly along the global source chain,
    /// which visits every rule record once.
    pub proof fn lemma_source_labels_increase(&self, i: int, j: int)
        requires
            self.wf(),
            0 <= i < j < self.rule_count(),
        ensures
            self.source_seq().len() == self.rule_count(),
            (self.source_seq()[i] as int) < self.rule_count(),
            (self.source_seq()[j] as int) < self.rule_count(),
            self.source_seq()[i] != self.source_seq()[j],
            self.spec_rule(self.source_seq()[i] as int).source_order_id.0
                < self.spec_rule(self.source_seq()[j] as int).source_order_id.0,
    {
        reveal(AstContext::wf_source);
        assert(self.source_pos@[self.source@[i] as int] == i);
        assert(self.source_pos@[self.source@[j] as int] == j);
    }

    /// Every rule record, live or retired, appears in the global source
    /// chain, at its source position.
    pub proof fn lemma_source_holds_every_rule(&self, r: int)
        requires
            self.wf(),
            0 <= r < self.rule_count(),
        ensures
            0 <= self.source_position(r) < self.rule_count(),
            self.source_seq()[self.source_position(r)] == r,
    {
        reveal(AstContext::wf_source);
    }

    /// A live rule is in exactly one list, its own, at its list position; a
    /// retired rule is in no list.
    pub proof fn lemma_live_rules_in_lists(&self, r: int, m: int)
        requires
            self.wf(),
            0 <= r < self.rule_count(),
            0 <= m < self.list_count(),
        ensures
            self.list_seq(m).contains(r as u32) <==> (self.spec_rule(r).live && self.spec_rule(r).parent_list.0 == m),
            self.spec_rule(r).live ==> (self.spec_rule(r).parent_list.0 as int) < self.list_count()
                && self.list_seq(self.spec_rule(r).parent_list.0 as int)[self.list_position(r)] == r,
    {
        reveal(AstContext::wf_lists);
        reveal(AstContext::wf_sizes);
        if self.lists@[m].contains(r as u32) {
            let i = choose|i: int| 0 <= i < self.lists@[m].len() && self.lists@[m][i] == r as u32;
            assert(self.lists@[m][i] == r as u32);
        }
        if self.rules@[r].live && self.rules@[r].parent_list.0 == m {
            assert(self.lists@[m][self.list_pos@[r]] == r);
        }
    }

    /// A declaration block and its owner rule refer to each other, and the
    /// block is live exactly when its owner is.
    pub proof fn lemma_block_owner_links(&self, b: int)
        requires
            self.wf(),
            0 <= b < self.block_count(),
        ensures
            ({
                let owner = self.spec_block(b).owner->Rule_0.0 as int;
                &&& 0 <= owner < self.rule_count()
                &&& self.spec_rule(owner).declaration_block == Some(DeclarationBlockId(b as u32))
                &&& self.spec_block(b).live == self.spec_rule(owner).live
                &&& (self.spec_block(b).effective_key.0 as int) < self.key_count()
                &&& self.chain(b).len() == self.spec_block(b).declaration_count
            }),
    {
        reveal(AstContext::wf_blocks);
        assert(self.chains@[b] == self.chains@[b]);
    }

    /// A rule owns at most one declaration block, and that block names the
    /// rule as its owner.
    pub proof fn lemma_rule_block_links(&self, r: int)
        requires
            self.wf(),
            0 <= r < self.rule_count(),
        ensures
            self.spec_rule(r).declaration_block matches Some(b) ==> (b.0 as int) < self.block_count()
                && self.spec_block(b.0 as int).owner == DeclarationBlockOwner::Rule(RuleId(r as u32)),
    {
        reveal(AstContext::wf_blocks);
    }

    /// Every declaration belongs to the chain of exactly one block.
    pub proof fn lemma_declaration_in_one_chain(&self, d: int, b1: int, b2: int)
        requires
            self.wf(),
            0 <= d < self.declaration_count(),
        ensures
            exists|b: int| 0 <= b < self.block_count() && #[trigger] self.chain(b).contains(d as u32),
            0 <= b1 < self.block_count() && 0 <= b2 < self.block_count() && self.chain(b1).contains(d as u32)
                && self.chain(b2).contains(d as u32) ==> b1 == b2,
    {
        reveal(AstContext::wf_blocks);
        reveal(AstContext::wf_sizes);
        let b = self.decl_owner@[d];
        assert(self.chains@[b][self.decl_pos@[d]] == d);
        assert(self.chain(b).contains(d as u32));
        if 0 <= b1 < self.block_count() && 0 <= b2 < self.block_count() && self.chain(b1).contains(d as u32)
            && self.chain(b2).contains(d as u32) {
            let i1 = choose|i: int| 0 <= i < self.chains@[b1].len() && self.chains@[b1][i] == d as u32;
            let i2 = choose|i: int| 0 <= i < self.chains@[b2].len() && self.chains@[b2][i] == d as u32;
            assert(self.decl_owner@[self.chains@[b1][i1] as int] == b1);
            assert(self.decl_owner@[self.chains@[b2][i2] as int] == b2);
        }
    }

    /// A rule is stored after its parent, and its parent is the owner of the
    /// list that holds it.
    pub proof fn lemma_parent_before_child(&self, r: int)
        requires
            self.wf(),
            0 <= r < self.rule_count(),
        ensures
            self.spec_rule(r).parent matches Some(p) ==> (p.0 as int) < r,
            (self.spec_rule(r).parent_list.0 as int) < self.list_count(),
            self.spec_rule(r).parent == self.spec_list(self.spec_rule(r).parent_list.0 as int).parent,
    {
        reveal(AstContext::wf_tree);
        reveal(AstContext::wf_lists);
    }

    /// Every stored link agrees with the sequences it encodes: each rule's
    /// source links name its neighbours in the source chain, each live rule's
    /// sibling links name its neighbours in its list (a retired rule has
    /// none), and each list's and block's endpoints and counts are the ends
    /// and length of its sequence.
    pub proof fn lemma_links_match_sequences(&self)
        requires
            self.wf(),
        ensures
            self.source_seq().len() == self.rule_count(),
            self.spec_first_rule_in_source() == rule_at(self.source_seq(), 0),
            self.spec_last_rule_in_source() == rule_at(self.source_seq(), self.rule_count() - 1),
            forall|i: int| 0 <= i < self.rule_count() ==> (#[trigger] self.source_seq()[i]) < self.rule_count()
                && self.source_position(self.source_seq()[i] as int) == i,
            forall|x: int| 0 <= x < self.rule_count() ==> {
                let p = #[trigger] self.source_position(x);
                &&& 0 <= p < self.rule_count()
                &&& self.source_seq()[p] == x
                &&& self.spec_rule(x).previous_in_source == rule_at(self.source_seq(), p - 1)
                &&& self.spec_rule(x).next_in_source == rule_at(self.source_seq(), p + 1)
            },
            forall|x: int| 0 <= x < self.rule_count() ==> {
                let rec = #[trigger] self.spec_rule(x);
                let l = rec.parent_list.0 as int;
                let q = self.list_position(x);
                &&& 0 <= l < self.list_count()
                &&& (rec.live ==> {
                    &&& 0 <= q < self.list_seq(l).len()
                    &&& self.list_seq(l)[q] == x
                    &&& rec.previous_sibling == rule_at(self.list_seq(l), q - 1)
                    &&& rec.next_sibling == rule_at(self.list_seq(l), q + 1)
                })
                &&& (!rec.live ==> rec.previous_sibling is None && rec.next_sibling is None)
            },
            forall|l: int, i: int| 0 <= l < self.list_count() && 0 <= i < self.list_seq(l).len() ==> {
                let x = #[trigger] self.list_seq(l)[i];
                &&& (x as int) < self.rule_count()
                &&& self.spec_rule(x as int).live
                &&& self.spec_rule(x as int).parent_list == RuleListId(l as u32)
                &&& self.list_position(x as int) == i
            },
            forall|l: int| 0 <= l < self.list_count() ==> {
                let list = #[trigger] self.spec_list(l);
                &&& list.live_len == self.list_seq(l).len()
                &&& list.first == rule_at(self.list_seq(l), 0)
                &&& list.last == rule_at(self.list_seq(l), self.list_seq(l).len() - 1)
            },
            forall|b: int| 0 <= b < self.block_count() ==> {
                let rec = #[trigger] self.spec_block(b);
                &&& rec.declaration_count == self.chain(b).len()
                &&& rec.first_declaration == declaration_at(self.chain(b), 0)
                &&& rec.last_declaration == declaration_at(self.chain(b), self.chain(b).len() - 1)
            },
    {
        reveal(AstContext::wf_source);
        reveal(AstContext::wf_lists);
        reveal(AstContext::wf_blocks);
        assert forall|x: int| 0 <= x < self.rule_count() implies {
            let p = #[trigger] self.source_position(x);
            &&& 0 <= p < self.rule_count()
            &&& self.source_seq()[p] == x
            &&& self.spec_rule(x).previous_in_source == rule_at(self.source_seq(), p - 1)
            &&& self.spec_rule(x).next_in_source == rule_at(self.source_seq(), p + 1)
        } by {
            let p = self.source_pos@[x];
            assert(self.rules@[self.source@[p] as int].previous_in_source == rule_at(self.source@, p - 1));
        }
    }

    /// The payloads of a block, in chain order, are those of the
    /// declarations of its chain.
    pub proof fn lemma_chain_payloads(&self, b: int)
        ensures
            self.chain_payloads(b).len() == self.chain(b).len(),
            forall|i: int| 0 <= i < self.chain(b).len() ==>
                #[trigger] self.chain_payloads(b)[i] == self.spec_declaration(self.chain(b)[i] as int).payload,
    {
    }

    /// The first live rule strictly between two source positions: none when
    /// every rule there is retired, and otherwise a live one with only
    /// retired rules before it.
    pub proof fn lemma_first_live_between(&self, lo: int, hi: int)
        ensures
            (forall|p: int| lo < p < hi ==> !(#[trigger] self.spec_rule(self.source_seq()[p] as int)).live)
                ==> self.first_live_between(lo, hi) is None,
            self.first_live_between(lo, hi) matches Some(p) ==> {
                &&& lo < p < hi
                &&& self.spec_rule(self.source_seq()[p] as int).live
                &&& forall|q: int| lo < q < p ==> !(#[trigger] self.spec_rule(self.source_seq()[q] as int)).live
            },
    {
        if forall|p: int| lo < p < hi ==> !(#[trigger] self.spec_rule(self.source_seq()[p] as int)).live {
            assert forall|p: int| lo < p < hi implies !(#[trigger] self.rules@[self.source@[p] as int]).live by {
                assert(!self.spec_rule(self.source_seq()[p] as int).live);
            }
        }
        if self.first_live_between(lo, hi) is Some {
            let p = self.first_live_between(lo, hi)->0;
            assert(exists|p: int| lo < p < hi && (#[trigger] self.rules@[self.source@[p] as int]).live);
            let w = choose|p: int| lo < p < hi && (#[trigger] self.rules@[self.source@[p] as int]).live;
            lemma_least_live(self.source@, self.rules@, lo, hi, w);
            assert forall|q: int| lo < q < p implies !(#[trigger] self.spec_rule(self.source_seq()[q] as int)).live by {
                assert(!self.rules@[self.source@[q] as int].live);
            }
        }
    }

    /// What a rule inserted after leaf `after` is placed after and before:
    /// the end of its subtree is itself, the first rule after it is its next
    /// sibling when it has one, and the gap test reads the rules between.
    pub proof fn lemma_insertion_after_leaf(&self, after: int)
        requires
            self.wf(),
            0 <= after < self.rule_count(),
            self.spec_rule(after).live,
            self.spec_rule(after).child_list is None,
        ensures
            self.spec_subtree_tail(after) == Some(RuleId(after as u32)),
            self.subtree_tail_position(after) == self.source_position(after),
            self.spec_rule(after).next_sibling is Some ==>
                self.spec_next_after_subtree(after) == self.spec_rule(after).next_sibling,
            self.insertion_position(after) == match self.spec_next_after_subtree(after) {
                Some(b) => if self.source_position(after) < self.source_position(b.0 as int) {
                    self.source_position(b.0 as int)
                } else {
                    -1
                },
                None => self.rule_count() as int,
            },
            self.insertion_gap_is_retired(after) <==> {
                &&& self.insertion_position(after) >= 0
                &&& forall|p: int| self.source_position(after) < p < self.insertion_position(after)
                    ==> !(#[trigger] self.spec_rule(self.source_seq()[p] as int)).live
            },
    {
        reveal(AstContext::wf_sizes);
        assert((after as u32) as int == after);
        let t = self.subtree_tail_position(after);
        let e = self.insertion_position(after);
        if forall|p: int| t < p < e ==> !(#[trigger] self.spec_rule(self.source_seq()[p] as int)).live {
            assert forall|p: int| t < p < e implies !(#[trigger] self.rules@[self.source@[p] as int]).live by {
                assert(!self.spec_rule(self.source_seq()[p] as int).live);
            }
        }
        if self.insertion_gap_is_retired(after) {
            assert forall|p: int| t < p < e implies !(#[trigger] self.spec_rule(self.source_seq()[p] as int)).live by {
                assert(!self.rules@[self.source@[p] as int].live);
            }
        }
    }

    /// The blocks of the rules at source positions `lo..hi`: none for an
    /// empty range, else those of `lo..hi - 1` followed by the block of the
    /// rule at `hi - 1`, if it has one.
    pub proof fn lemma_blocks_at_step(&self, lo: int, hi: int)
        ensures
            hi <= lo ==> self.blocks_at(lo, hi) == Seq::<DeclarationBlockId>::empty(),
            hi > lo ==> self.blocks_at(lo, hi) == match self.spec_rule(self.source_seq()[hi - 1] as int).declaration_block {
                Some(b) => self.blocks_at(lo, hi - 1).push(b),
                None => self.blocks_at(lo, hi - 1),
            },
    {
    }

    /// The chains of a list of blocks, concatenated: none for no block, else
    /// the first block's chain followed by those of the rest.
    pub proof fn lemma_concat_chains_unfold(&self, blocks: Seq<DeclarationBlockId>)
        ensures
            blocks.len() == 0 ==> self.concat_chains(blocks) == Seq::<u32>::empty(),
            blocks.len() > 0 ==> self.concat_chains(blocks)
                == self.chain(blocks[0].0 as int) + self.concat_chains(blocks.subrange(1, blocks.len() as int)),
    {
    }
}

/// A live position in `lo..hi` yields a least one.
proof fn lemma_least_live<R>(source: Seq<u32>, rules: Seq<RuleRecord<R>>, lo: int, hi: int, w: int)
    requires
        lo < w < hi,
        rules[source[w] as int].live,
    ensures
        exists|p: int| lo < p < hi && (#[trigger] rules[source[p] as int]).live
            && forall|q: int| lo < q < p ==> !(#[trigger] rules[source[q] as int]).live,
    decreases w - lo,
{
    if exists|q: int| lo < q < w && (#[trigger] rules[source[q] as int]).live {
        let q = choose|q: int| lo < q < w && (#[trigger] rules[source[q] as int]).live;
        lemma_least_live(source, rules, lo, hi, q);
    } else {
        assert(forall|q: int| lo < q < w ==> !(#[trigger] rules[source[q] as int]).live);
    }
}

} // verus!
