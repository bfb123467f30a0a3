//! Compact typed identities of the dense AST stores.
//!
//! Every identity is a dense `u32` offset into the store that allocated it.
//! Identities are never reused: retiring a record keeps its slot.

use vstd::prelude::*;

verus! {

/// Stable identity of one rule record.
#[derive(Clone, Copy, PartialEq, Eq, Structural, Debug, Hash, PartialOrd, Ord)]
pub struct RuleId(pub u32);

/// Stable identity of one direct rule list.
#[derive(Clone, Copy, PartialEq, Eq, Structural, Debug, Hash, PartialOrd, Ord)]
pub struct RuleListId(pub u32);

/// Stable identity of one declaration block.
#[derive(Clone, Copy, PartialEq, Eq, Structural, Debug, Hash, PartialOrd, Ord)]
pub struct DeclarationBlockId(pub u32);

/// Stable identity of one declaration occurrence.
#[derive(Clone, Copy, PartialEq, Eq, Structural, Debug, Hash, PartialOrd, Ord)]
pub struct DeclarationId(pub u32);

/// Stable identity of one interned effective key.
#[derive(Clone, Copy, PartialEq, Eq, Structural, Debug, Hash, PartialOrd, Ord)]
pub struct EffectiveKeyId(pub u32);

/// Stable identity of one interned selector value.
#[derive(Clone, Copy, PartialEq, Eq, Structural, Debug, Hash, PartialOrd, Ord)]
pub struct SelectorValueId(pub u32);

/// Stable identity of one interned selector path.
#[derive(Clone, Copy, PartialEq, Eq, Structural, Debug, Hash, PartialOrd, Ord)]
pub struct SelectorPathId(pub u32);

/// Stable identity of one interned wrapper context value.
#[derive(Clone, Copy, PartialEq, Eq, Structural, Debug, Hash, PartialOrd, Ord)]
pub struct ContextValueId(pub u32);

/// Stable identity of one interned wrapper context path.
#[derive(Clone, Copy, PartialEq, Eq, Structural, Debug, Hash, PartialOrd, Ord)]
pub struct ContextPathId(pub u32);

/// Stable identity of one interned layer context.
#[derive(Clone, Copy, PartialEq, Eq, Structural, Debug, Hash, PartialOrd, Ord)]
pub struct LayerContextId(pub u32);

impl RuleId {
    /// The dense store offset of this rule.
    pub fn index(self) -> (r: usize)
        ensures
            r == self.0,
    {
        self.0 as usize
    }
}

impl RuleListId {
    /// The dense store offset of this rule list.
    pub fn index(self) -> (r: usize)
        ensures
            r == self.0,
    {
        self.0 as usize
    }
}

impl DeclarationBlockId {
    /// The dense store offset of this declaration block.
    pub fn index(self) -> (r: usize)
        ensures
            r == self.0,
    {
        self.0 as usize
    }
}

impl DeclarationId {
    /// The dense store offset of this declaration.
    pub fn index(self) -> (r: usize)
        ensures
            r == self.0,
    {
        self.0 as usize
    }
}

impl EffectiveKeyId {
    /// The dense store offset of this effective key.
    pub fn index(self) -> (r: usize)
        ensures
            r == self.0,
    {
        self.0 as usize
    }
}

impl SelectorValueId {
    /// The dense store offset of this selector value.
    pub fn index(self) -> (r: usize)
        ensures
            r == self.0,
    {
        self.0 as usize
    }
}

impl SelectorPathId {
    /// The dense store offset of this selector path.
    pub fn index(self) -> (r: usize)
        ensures
            r == self.0,
    {
        self.0 as usize
    }
}

impl ContextValueId {
    /// The dense store offset of this context value.
    pub fn index(self) -> (r: usize)
        ensures
            r == self.0,
    {
        self.0 as usize
    }
}

impl ContextPathId {
    /// The dense store offset of this context path.
    pub fn index(self) -> (r: usize)
        ensures
            r == self.0,
    {
        self.0 as usize
    }
}

impl LayerContextId {
    /// The dense store offset of this layer context.
    pub fn index(self) -> (r: usize)
        ensures
            r == self.0,
    {
        self.0 as usize
    }
}

/// Context-local label whose ordering matches semantic source order.
///
/// Unlike [`RuleId`], this is not a storage identity: local insertions take a
/// label between their source neighbours, and every rule may be relabelled
/// when a local gap is exhausted.
#[derive(Clone, Copy, PartialEq, Eq, Structural, Debug, Hash, PartialOrd, Ord)]
pub struct SourceOrderId(pub u64);

} // verus!
