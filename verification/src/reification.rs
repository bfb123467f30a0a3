//! Logical identities and results of applying a cross-rule transformation plan.

use vstd::prelude::*;

verus! {

/// Logical identity of a rule inside one transformation plan.
#[derive(Clone, Copy, Debug, PartialEq, Eq, PartialOrd, Ord, Hash)]
pub struct ReificationRuleId(pub u32);

impl ReificationRuleId {
    /// The plan-local offset of this rule.
    pub fn index(self) -> (r: usize)
        ensures
            r == self.0,
    {
        self.0 as usize
    }
}

/// Logical identity of a declaration inside one transformation plan.
#[derive(Clone, Copy, Debug, PartialEq, Eq, PartialOrd, Ord, Hash)]
pub struct ReificationDeclarationId(pub u32);

impl ReificationDeclarationId {
    /// The plan-local offset of this declaration.
    pub fn index(self) -> (r: usize)
        ensures
            r == self.0,
    {
        self.0 as usize
    }
}

/// Logical identity of a synthesized selector inside one transformation plan.
#[derive(Clone, Copy, Debug, PartialEq, Eq, PartialOrd, Ord, Hash)]
pub struct ReificationSelectorId(pub u32);

impl ReificationSelectorId {
    /// The plan-local offset of this selector.
    pub fn index(self) -> (r: usize)
        ensures
            r == self.0,
    {
        self.0 as usize
    }
}

/// Final semantic order of one affected direct rule list.
#[derive(Debug)]
pub struct FinalReificationRuleList {
    pub parent: Option<ReificationRuleId>,
    pub rules: Vec<ReificationRuleId>,
}

/// Counters reported by one application of a plan.
#[derive(Clone, Copy, Debug, PartialEq, Eq)]
pub struct ReificationStats {
    pub reification_passes: u32,
    pub rule_tombstone_reuses: u32,
    pub block_tombstone_reuses: u32,
    pub declaration_tombstone_reuses: u32,
    pub residual_rule_inserts: u32,
    pub residual_declaration_inserts: u32,
    pub radix_relabel_groups: u32,
}

impl Default for ReificationStats {
    fn default() -> (r: ReificationStats)
        ensures
            r == (ReificationStats {
                reification_passes: 0,
                rule_tombstone_reuses: 0,
                block_tombstone_reuses: 0,
                declaration_tombstone_reuses: 0,
                residual_rule_inserts: 0,
                residual_declaration_inserts: 0,
                radix_relabel_groups: 0,
            }),
    {
        ReificationStats {
            reification_passes: 0,
            rule_tombstone_reuses: 0,
            block_tombstone_reuses: 0,
            declaration_tombstone_reuses: 0,
            residual_rule_inserts: 0,
            residual_declaration_inserts: 0,
            radix_relabel_groups: 0,
        }
    }
}

} // verus!
