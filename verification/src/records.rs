//! Records of the dense AST stores and the errors of their transactions.

use crate::ids::{DeclarationBlockId, DeclarationId, EffectiveKeyId, RuleId, RuleListId, SourceOrderId};
use vstd::prelude::*;

verus! {

/// Most records one dense store can hold. Identities stay below `u32::MAX`,
/// which keeps `u32::MAX` free as the optional-identity niche.
pub const DENSE_CAPACITY: usize = 0xffff_fffe;

/// Initial capacities for the compiler-owned AST stores.
///
/// These are allocation hints only: every store grows when an input holds
/// more records than estimated.
#[derive(Clone, Copy, PartialEq, Eq, Structural, Debug, Default)]
pub struct CompilationCapacity {
    pub rules: usize,
    pub rule_lists: usize,
    pub declaration_blocks: usize,
    pub declarations: usize,
    pub selectors: usize,
    pub contexts: usize,
}

/// Initial capacities for a stylesheet's stores; allocation hints only.
#[derive(Clone, Copy, PartialEq, Eq, Structural, Debug, Default)]
pub struct StyleSheetCapacity {
    pub rules: usize,
    pub declaration_blocks: usize,
    pub declarations: usize,
    pub selectors: usize,
    pub contexts: usize,
}

/// One contiguous run `start..start + len` in the authored declaration tape.
#[derive(Clone, Copy, PartialEq, Eq, Structural, Debug)]
pub struct DeclarationRange {
    start: u32,
    len: u32,
}

impl DeclarationRange {
    /// The first tape offset of the run.
    pub closed spec fn spec_start(self) -> u32 {
        self.start
    }

    /// The number of declarations in the run.
    pub closed spec fn spec_len(self) -> u32 {
        self.len
    }

    /// The run of `len` declarations from tape offset `start`; its end must be
    /// addressable by a dense identity.
    pub fn new(start: u32, len: u32) -> (r: DeclarationRange)
        requires
            start + len <= u32::MAX,
        ensures
            r.spec_start() == start,
            r.spec_len() == len,
    {
        DeclarationRange { start, len }
    }

    /// The first tape offset of the run.
    pub fn start(self) -> (r: u32)
        ensures
            r == self.spec_start(),
    {
        self.start
    }

    /// The number of declarations in the run.
    pub fn len(self) -> (r: u32)
        ensures
            r == self.spec_len(),
    {
        self.len
    }

    /// Whether the run holds no declaration.
    pub fn is_empty(self) -> (r: bool)
        ensures
            r == (self.spec_len() == 0),
    {
        self.len == 0
    }
}

/// The lightweight root of a compilation.
#[derive(Clone, Copy, PartialEq, Eq, Structural, Debug)]
pub struct StyleSheet {
    pub root_rules: RuleListId,
}

impl StyleSheet {
    /// The list of top-level rules.
    pub fn root_rules(self) -> (r: RuleListId)
        ensures
            r == self.root_rules,
    {
        self.root_rules
    }
}

/// One authored declaration occurrence and its cascade importance.
#[derive(Debug, PartialEq, Eq)]
pub struct DeclarationRecord<D> {
    pub payload: D,
    pub next_in_block: Option<DeclarationId>,
    pub important: bool,
}

impl<D> DeclarationRecord<D> {
    /// The declaration payload.
    pub fn payload(&self) -> (r: &D)
        ensures
            *r == self.payload,
    {
        &self.payload
    }

    /// Mutable access to the declaration payload.
    pub fn payload_mut(&mut self) -> (r: &mut D)
        ensures
            *r == old(self).payload,
            *final(self) == (DeclarationRecord { payload: *final(r), ..*old(self) }),
    {
        &mut self.payload
    }

    /// Whether the declaration carries `!important`.
    pub fn is_important(&self) -> (r: bool)
        ensures
            r == self.important,
    {
        self.important
    }
}

/// Direct topology of one authored or synthesized CSS rule.
#[derive(Debug, PartialEq, Eq)]
pub struct RuleRecord<R> {
    pub payload: R,
    pub source_order_id: SourceOrderId,
    pub parent: Option<RuleId>,
    pub parent_list: RuleListId,
    pub previous_sibling: Option<RuleId>,
    pub next_sibling: Option<RuleId>,
    pub previous_in_source: Option<RuleId>,
    pub next_in_source: Option<RuleId>,
    pub child_list: Option<RuleListId>,
    pub declaration_block: Option<DeclarationBlockId>,
    pub revision: u32,
    pub live: bool,
}

impl<R> RuleRecord<R> {
    /// The rule payload.
    pub fn payload(&self) -> (r: &R)
        ensures
            *r == self.payload,
    {
        &self.payload
    }

    /// The label that orders this rule in global source order.
    pub fn source_order_id(&self) -> (r: SourceOrderId)
        ensures
            r == self.source_order_id,
    {
        self.source_order_id
    }

    /// The rule owning the list that holds this rule.
    pub fn parent(&self) -> (r: Option<RuleId>)
        ensures
            r == self.parent,
    {
        self.parent
    }

    /// The list that holds this rule.
    pub fn parent_list(&self) -> (r: RuleListId)
        ensures
            r == self.parent_list,
    {
        self.parent_list
    }

    /// The direct sibling before this rule.
    pub fn previous_sibling(&self) -> (r: Option<RuleId>)
        ensures
            r == self.previous_sibling,
    {
        self.previous_sibling
    }

    /// The direct sibling after this rule.
    pub fn next_sibling(&self) -> (r: Option<RuleId>)
        ensures
            r == self.next_sibling,
    {
        self.next_sibling
    }

    /// The rule before this one in global source order.
    pub fn previous_in_source(&self) -> (r: Option<RuleId>)
        ensures
            r == self.previous_in_source,
    {
        self.previous_in_source
    }

    /// The rule after this one in global source order.
    pub fn next_in_source(&self) -> (r: Option<RuleId>)
        ensures
            r == self.next_in_source,
    {
        self.next_in_source
    }

    /// The direct child list owned by this rule.
    pub fn child_list(&self) -> (r: Option<RuleListId>)
        ensures
            r == self.child_list,
    {
        self.child_list
    }

    /// The declaration block owned by this rule.
    pub fn declaration_block(&self) -> (r: Option<DeclarationBlockId>)
        ensures
            r == self.declaration_block,
    {
        self.declaration_block
    }

    /// Counter bumped by every mutation of this rule.
    pub fn revision(&self) -> (r: u32)
        ensures
            r == self.revision,
    {
        self.revision
    }

    /// Whether the rule is still part of the semantic tree.
    pub fn is_live(&self) -> (r: bool)
        ensures
            r == self.live,
    {
        self.live
    }
}

/// Endpoints and ownership of one direct CSS rule list.
#[derive(Clone, Copy, PartialEq, Eq, Structural, Debug)]
pub struct RuleList {
    pub parent: Option<RuleId>,
    pub first: Option<RuleId>,
    pub last: Option<RuleId>,
    pub live_len: u32,
}

impl RuleList {
    /// The rule owning this list, `None` for the root list.
    pub fn parent(self) -> (r: Option<RuleId>)
        ensures
            r == self.parent,
    {
        self.parent
    }

    /// The first live rule of the list.
    pub fn first(self) -> (r: Option<RuleId>)
        ensures
            r == self.first,
    {
        self.first
    }

    /// The last live rule of the list.
    pub fn last(self) -> (r: Option<RuleId>)
        ensures
            r == self.last,
    {
        self.last
    }

    /// The number of live rules of the list.
    pub fn live_len(self) -> (r: u32)
        ensures
            r == self.live_len,
    {
        self.live_len
    }
}

/// The unique syntax owner of a declaration block.
#[derive(Clone, Copy, PartialEq, Eq, Structural, Debug)]
pub enum DeclarationBlockOwner {
    Rule(RuleId),
}

/// A declaration chain plus its persistent AST identity.
#[derive(Clone, Copy, PartialEq, Eq, Structural, Debug)]
pub struct DeclarationBlockRecord {
    pub first_declaration: Option<DeclarationId>,
    pub last_declaration: Option<DeclarationId>,
    pub declaration_count: u32,
    pub owner: DeclarationBlockOwner,
    pub effective_key: EffectiveKeyId,
    pub revision: u32,
    pub live: bool,
}

impl DeclarationBlockRecord {
    /// The number of declarations in the chain.
    pub fn declaration_count(&self) -> (r: u32)
        ensures
            r == self.declaration_count,
    {
        self.declaration_count
    }

    /// Whether the chain is empty.
    pub fn is_empty(&self) -> (r: bool)
        ensures
            r == (self.declaration_count == 0),
    {
        self.declaration_count == 0
    }

    /// The rule owning this block.
    pub fn owner(&self) -> (r: DeclarationBlockOwner)
        ensures
            r == self.owner,
    {
        self.owner
    }

    /// The interned selector and cascade context of this block.
    pub fn effective_key(&self) -> (r: EffectiveKeyId)
        ensures
            r == self.effective_key,
    {
        self.effective_key
    }

    /// Counter bumped by every mutation of this block.
    pub fn revision(&self) -> (r: u32)
        ensures
            r == self.revision,
    {
        self.revision
    }

    /// Whether the block is still part of the semantic tree.
    pub fn is_live(&self) -> (r: bool)
        ensures
            r == self.live,
    {
        self.live
    }
}

/// A declaration occurrence proven to belong to one declaration block.
#[derive(Clone, Copy, PartialEq, Eq, Structural, Debug)]
pub struct DeclarationOccurrence {
    pub block: DeclarationBlockId,
    pub declaration: DeclarationId,
}

impl DeclarationOccurrence {
    /// The occurrence's declaration identity.
    pub fn declaration(self) -> (r: DeclarationId)
        ensures
            r == self.declaration,
    {
        self.declaration
    }
}

/// Capacity or topology error raised before a structural mutation is visible.
#[derive(Clone, Copy, PartialEq, Eq, Structural, Debug)]
pub enum MutationError {
    RuleCapacityExhausted,
    DeclarationBlockCapacityExhausted,
    RuleListCapacityExhausted,
    EffectiveKeyCapacityExhausted,
    SelectorContextCapacityExhausted,
    DeclarationCapacityExhausted,
    UnknownRule(RuleId),
    UnknownRuleList(RuleListId),
    UnknownEffectiveKey(EffectiveKeyId),
    RetiredRule(RuleId),
    ChildListAlreadyExists(RuleId),
    DeclarationBlockAlreadyExists(RuleId),
    UnknownDeclarationBlock(DeclarationBlockId),
    UnknownDeclaration(DeclarationId),
    InvalidDeclarationChain(DeclarationBlockId),
    NonContiguousDeclarationRange(DeclarationBlockId),
    DeclarationIndexOutOfBounds { block: DeclarationBlockId, index: usize },
    InvalidRuleTopology(RuleId),
    InvalidSourceTopology,
    RuleHasChildren(RuleId),
}

/// Live topology exposed by retiring one leaf rule.
#[derive(Clone, Copy, PartialEq, Eq, Structural, Debug)]
pub struct RetiredRule {
    pub id: RuleId,
    pub list: RuleListId,
    pub previous: Option<RuleId>,
    pub next: Option<RuleId>,
    pub declaration_block: Option<DeclarationBlockId>,
}

/// Result of folding one direct left sibling into the retained right rule.
#[derive(Clone, Copy, PartialEq, Eq, Structural, Debug)]
pub struct MergedAdjacentRuleBlocks {
    pub retired_rule: RuleId,
    pub retired_block: DeclarationBlockId,
    pub retained_rule: RuleId,
    pub retained_block: DeclarationBlockId,
    pub effective_key: EffectiveKeyId,
}



/// A violated store, ownership, or direct-topology invariant.
#[derive(Clone, Copy, PartialEq, Eq, Structural, Debug)]
pub enum ValidationError {
    MissingRootRuleList(RuleListId),
    RootRuleListHasParent(RuleId),
    MissingListParent { list: RuleListId, parent: RuleId },
    RetiredListParent { list: RuleListId, parent: RuleId },
    ParentDoesNotOwnList { list: RuleListId, parent: RuleId },
    InvalidListEndpoints(RuleListId),
    MissingRule(RuleId),
    RetiredRuleInList { list: RuleListId, rule: RuleId },
    RuleHasWrongParentList { list: RuleListId, rule: RuleId },
    RuleHasWrongParent { list: RuleListId, rule: RuleId },
    RuleHasWrongPrevious { rule: RuleId, expected: Option<RuleId> },
    ListDoesNotEndAtLast(RuleListId),
    ListLengthMismatch { list: RuleListId, expected: u32, actual: u32 },
    LiveRuleIsNotInOneList(RuleId),
    MissingOwnedChildList { rule: RuleId, list: RuleListId },
    ChildListHasWrongParent { rule: RuleId, list: RuleListId, actual: Option<RuleId> },
    MissingOwnedDeclarationBlock { rule: RuleId, block: DeclarationBlockId },
    DeclarationBlockHasWrongOwner { rule: RuleId, block: DeclarationBlockId, actual: RuleId },
    MissingBlockOwner { block: DeclarationBlockId, owner: RuleId },
    RetiredBlockOwner { block: DeclarationBlockId, owner: RuleId },
    OwnerDoesNotReferenceBlock { block: DeclarationBlockId, owner: RuleId, actual: Option<DeclarationBlockId> },
    MissingEffectiveKey { block: DeclarationBlockId, key: EffectiveKeyId },
    InvalidDeclarationEndpoints { block: DeclarationBlockId },
    DeclarationCycle { block: DeclarationBlockId, declaration: DeclarationId },
    DeclarationCountMismatch { block: DeclarationBlockId, expected: u32, actual: u32 },
    DeclarationLastMismatch { block: DeclarationBlockId, expected: Option<DeclarationId>, actual: Option<DeclarationId> },
    InvalidDeclarationReference { block: DeclarationBlockId, declaration: DeclarationId },
    DuplicateDeclarationOwner { declaration: DeclarationId, first: DeclarationBlockId, second: DeclarationBlockId },
    UnownedDeclarations { expected: u32, actual: u32 },
    InvalidSourcePrevious { rule: RuleId, expected: Option<RuleId>, actual: Option<RuleId> },
    InvalidSourceNext { rule: RuleId, expected: Option<RuleId>, actual: Option<RuleId> },
    InvalidSourceOrder { previous: RuleId, next: RuleId },
    InvalidSourceEndpoints,
}

} // verus!
