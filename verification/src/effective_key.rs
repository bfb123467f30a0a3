//! Exact selector and cascade context carried by declaration blocks.

use crate::ids::{ContextPathId, LayerContextId, RuleId, SelectorPathId};
use vstd::prelude::*;

verus! {

/// The selector-bearing syntax that contributes one selector path frame.
#[derive(Clone, Copy, PartialEq, Eq, Structural, Debug, Hash)]
pub enum SelectorFrameKind {
    Style,
    Nesting,
}

/// A conditional wrapper whose typed value is canonicalized, or whose
/// occurrence remains deliberately opaque.
#[derive(Clone, Copy, PartialEq, Eq, Structural, Debug, Hash)]
pub enum ContextFrameKind {
    Media,
    Supports,
    Container,
    MozDocument,
    Scope,
    StartingStyle,
}

impl ContextFrameKind {
    /// Opaque wrappers are identified by their occurrence, not their value.
    pub open spec fn spec_is_opaque(self) -> bool {
        self is MozDocument || self is Scope || self is StartingStyle
    }

    /// Whether this wrapper kind is identified by its occurrence alone.
    pub fn is_opaque(self) -> (r: bool)
        ensures
            r == self.spec_is_opaque(),
    {
        match self {
            ContextFrameKind::MozDocument | ContextFrameKind::Scope | ContextFrameKind::StartingStyle => true,
            _ => false,
        }
    }
}

/// Cascade origin of a declaration block.
#[derive(Clone, Copy, PartialEq, Eq, Structural, Debug, Hash)]
pub enum CascadeOrigin {
    Author,
}

/// Cascade phase of a declaration block.
#[derive(Clone, Copy, PartialEq, Eq, Structural, Debug, Hash)]
pub enum CascadePhase {
    AuthorNormalAndImportant,
}

/// Which cascade history a declaration block belongs to.
#[derive(Clone, Copy, PartialEq, Eq, Structural, Debug, Hash)]
pub enum HistorySegment {
    StyleCascade,
    Isolated(RuleId),
}

/// Exact selector and cascade context stored by every declaration block.
#[derive(Clone, Copy, PartialEq, Eq, Structural, Debug, Hash)]
pub struct EffectiveKeyData {
    selector_path: Option<SelectorPathId>,
    context_path: Option<ContextPathId>,
    layer: Option<LayerContextId>,
    origin: CascadeOrigin,
    cascade_phase: CascadePhase,
    history_segment: HistorySegment,
}

/// The raw value of an optional dense identity: zero when absent.
pub open spec fn spec_raw(present: bool, raw: u32) -> int {
    if present {
        raw as int
    } else {
        0
    }
}

/// One presence bit of an optional component.
pub open spec fn spec_bit(present: bool) -> int {
    if present {
        1
    } else {
        0
    }
}

impl EffectiveKeyData {
    /// The selector path component.
    pub closed spec fn spec_selector_path(self) -> Option<SelectorPathId> {
        self.selector_path
    }

    /// The wrapper context path component.
    pub closed spec fn spec_context_path(self) -> Option<ContextPathId> {
        self.context_path
    }

    /// The layer context component.
    pub closed spec fn spec_layer(self) -> Option<LayerContextId> {
        self.layer
    }

    /// The history segment component.
    pub closed spec fn spec_history_segment(self) -> HistorySegment {
        self.history_segment
    }

    /// The packed interning code of this key: the raw values of its four
    /// optional identities as base-2^32 digits, and their presence bits.
    pub closed spec fn spec_code(self) -> (u128, u8) {
        let sp = spec_raw(self.selector_path is Some, self.selector_path.unwrap_or(SelectorPathId(0)).0);
        let cp = spec_raw(self.context_path is Some, self.context_path.unwrap_or(ContextPathId(0)).0);
        let ly = spec_raw(self.layer is Some, self.layer.unwrap_or(LayerContextId(0)).0);
        let hs = spec_raw(self.history_segment is Isolated,
            match self.history_segment { HistorySegment::Isolated(r) => r.0, _ => 0u32 });
        let bits = spec_bit(self.selector_path is Some) * 8 + spec_bit(self.context_path is Some) * 4
            + spec_bit(self.layer is Some) * 2 + spec_bit(self.history_segment is Isolated);
        ((sp * 0x1_0000_0000_0000_0000_0000_0000 + cp * 0x1_0000_0000_0000_0000 + ly * 0x1_0000_0000 + hs) as u128,
            bits as u8)
    }

    /// Distinct keys have distinct codes.
    pub proof fn lemma_code_injective(a: Self, b: Self)
        requires
            a.spec_code() == b.spec_code(),
        ensures
            a == b,
    {
        let asp = spec_raw(a.selector_path is Some, a.selector_path.unwrap_or(SelectorPathId(0)).0);
        let acp = spec_raw(a.context_path is Some, a.context_path.unwrap_or(ContextPathId(0)).0);
        let aly = spec_raw(a.layer is Some, a.layer.unwrap_or(LayerContextId(0)).0);
        let ahs = spec_raw(a.history_segment is Isolated,
            match a.history_segment { HistorySegment::Isolated(r) => r.0, _ => 0u32 });
        let bsp = spec_raw(b.selector_path is Some, b.selector_path.unwrap_or(SelectorPathId(0)).0);
        let bcp = spec_raw(b.context_path is Some, b.context_path.unwrap_or(ContextPathId(0)).0);
        let bly = spec_raw(b.layer is Some, b.layer.unwrap_or(LayerContextId(0)).0);
        let bhs = spec_raw(b.history_segment is Isolated,
            match b.history_segment { HistorySegment::Isolated(r) => r.0, _ => 0u32 });
        lemma_pack4_injective(asp, acp, aly, ahs, bsp, bcp, bly, bhs);
        assert(a.selector_path is Some == b.selector_path is Some);
        assert(a.context_path is Some == b.context_path is Some);
        assert(a.layer is Some == b.layer is Some);
        assert(a.history_segment is Isolated == b.history_segment is Isolated);
    }

    /// The selector path component.
    pub fn selector_path(self) -> (r: Option<SelectorPathId>)
        ensures
            r == self.spec_selector_path(),
    {
        self.selector_path
    }

    /// The wrapper context path component.
    pub fn context_path(self) -> (r: Option<ContextPathId>)
        ensures
            r == self.spec_context_path(),
    {
        self.context_path
    }

    /// The layer context component.
    pub fn layer(self) -> (r: Option<LayerContextId>)
        ensures
            r == self.spec_layer(),
    {
        self.layer
    }

    /// The cascade origin component.
    pub fn origin(self) -> (r: CascadeOrigin)
        ensures
            r == CascadeOrigin::Author,
    {
        self.origin
    }

    /// The cascade phase component.
    pub fn cascade_phase(self) -> (r: CascadePhase)
        ensures
            r == CascadePhase::AuthorNormalAndImportant,
    {
        self.cascade_phase
    }

    /// The history segment component.
    pub fn history_segment(self) -> (r: HistorySegment)
        ensures
            r == self.spec_history_segment(),
    {
        self.history_segment
    }

    /// The packed interning code of this key.
    pub fn code(self) -> (r: (u128, u8))
        ensures
            r == self.spec_code(),
    {
        let sp: u128 = match self.selector_path { Some(id) => id.0 as u128, None => 0 };
        let cp: u128 = match self.context_path { Some(id) => id.0 as u128, None => 0 };
        let ly: u128 = match self.layer { Some(id) => id.0 as u128, None => 0 };
        let hs: u128 = match self.history_segment { HistorySegment::Isolated(id) => id.0 as u128, _ => 0 };
        let bits: u8 = (if self.selector_path.is_some() { 8u8 } else { 0u8 })
            + (if self.context_path.is_some() { 4u8 } else { 0u8 })
            + (if self.layer.is_some() { 2u8 } else { 0u8 })
            + (match self.history_segment { HistorySegment::Isolated(_) => 1u8, _ => 0u8 });
        assert(sp * 0x1_0000_0000_0000_0000_0000_0000 + cp * 0x1_0000_0000_0000_0000 + ly * 0x1_0000_0000 + hs
            <= u128::MAX) by (nonlinear_arith)
            requires sp <= 0xffff_ffff, cp <= 0xffff_ffff, ly <= 0xffff_ffff, hs <= 0xffff_ffff;
        (sp * 0x1_0000_0000_0000_0000_0000_0000 + cp * 0x1_0000_0000_0000_0000 + ly * 0x1_0000_0000 + hs, bits)
    }
}

/// Four 32-bit digits determine their base-2^32 packing.
pub proof fn lemma_pack4_injective(a0: int, a1: int, a2: int, a3: int, b0: int, b1: int, b2: int, b3: int)
    requires
        0 <= a0 <= 0xffff_ffff, 0 <= a1 <= 0xffff_ffff, 0 <= a2 <= 0xffff_ffff, 0 <= a3 <= 0xffff_ffff,
        0 <= b0 <= 0xffff_ffff, 0 <= b1 <= 0xffff_ffff, 0 <= b2 <= 0xffff_ffff, 0 <= b3 <= 0xffff_ffff,
        (a0 * 0x1_0000_0000_0000_0000_0000_0000 + a1 * 0x1_0000_0000_0000_0000 + a2 * 0x1_0000_0000 + a3) as u128
            == (b0 * 0x1_0000_0000_0000_0000_0000_0000 + b1 * 0x1_0000_0000_0000_0000 + b2 * 0x1_0000_0000 + b3) as u128,
    ensures
        a0 == b0 && a1 == b1 && a2 == b2 && a3 == b3,
{
    let x = a0 * 0x1_0000_0000_0000_0000_0000_0000 + a1 * 0x1_0000_0000_0000_0000 + a2 * 0x1_0000_0000 + a3;
    let y = b0 * 0x1_0000_0000_0000_0000_0000_0000 + b1 * 0x1_0000_0000_0000_0000 + b2 * 0x1_0000_0000 + b3;
    assert(0 <= x <= u128::MAX && 0 <= y <= u128::MAX) by (nonlinear_arith)
        requires 0 <= a0 <= 0xffff_ffff, 0 <= a1 <= 0xffff_ffff, 0 <= a2 <= 0xffff_ffff, 0 <= a3 <= 0xffff_ffff,
            0 <= b0 <= 0xffff_ffff, 0 <= b1 <= 0xffff_ffff, 0 <= b2 <= 0xffff_ffff, 0 <= b3 <= 0xffff_ffff,
            x == a0 * 0x1_0000_0000_0000_0000_0000_0000 + a1 * 0x1_0000_0000_0000_0000 + a2 * 0x1_0000_0000 + a3,
            y == b0 * 0x1_0000_0000_0000_0000_0000_0000 + b1 * 0x1_0000_0000_0000_0000 + b2 * 0x1_0000_0000 + b3;
    assert(x == y);
    assert(a3 == b3 && a2 == b2 && a1 == b1 && a0 == b0) by (nonlinear_arith)
        requires 0 <= a0 <= 0xffff_ffff, 0 <= a1 <= 0xffff_ffff, 0 <= a2 <= 0xffff_ffff, 0 <= a3 <= 0xffff_ffff,
            0 <= b0 <= 0xffff_ffff, 0 <= b1 <= 0xffff_ffff, 0 <= b2 <= 0xffff_ffff, 0 <= b3 <= 0xffff_ffff,
            a0 * 0x1_0000_0000_0000_0000_0000_0000 + a1 * 0x1_0000_0000_0000_0000 + a2 * 0x1_0000_0000 + a3
            == b0 * 0x1_0000_0000_0000_0000_0000_0000 + b1 * 0x1_0000_0000_0000_0000 + b2 * 0x1_0000_0000 + b3;
}

/// Parser-local semantic context. It holds only compact identities and can
/// be copied through recursive descent without borrowing the AST.
#[derive(Clone, Copy, PartialEq, Eq, Structural, Debug, Hash)]
pub struct EffectiveContext {
    style_rule: Option<RuleId>,
    selector_path: Option<SelectorPathId>,
    context_path: Option<ContextPathId>,
    layer: Option<LayerContextId>,
    origin: CascadeOrigin,
    cascade_phase: CascadePhase,
    history_segment: HistorySegment,
}

impl EffectiveContext {
    /// The innermost enclosing style rule.
    pub closed spec fn spec_style_rule(self) -> Option<RuleId> {
        self.style_rule
    }

    /// The selector path component.
    pub closed spec fn spec_selector_path(self) -> Option<SelectorPathId> {
        self.selector_path
    }

    /// The wrapper context path component.
    pub closed spec fn spec_context_path(self) -> Option<ContextPathId> {
        self.context_path
    }

    /// The layer context component.
    pub closed spec fn spec_layer(self) -> Option<LayerContextId> {
        self.layer
    }

    /// The history segment component.
    pub closed spec fn spec_history_segment(self) -> HistorySegment {
        self.history_segment
    }

    /// The effective key that a block declared in this context receives.
    pub closed spec fn spec_effective_key(self) -> EffectiveKeyData {
        EffectiveKeyData {
            selector_path: self.selector_path,
            context_path: self.context_path,
            layer: self.layer,
            origin: self.origin,
            cascade_phase: self.cascade_phase,
            history_segment: self.history_segment,
        }
    }

    /// The key of a block that keeps its own isolated cascade history.
    pub closed spec fn spec_isolated(rule: RuleId) -> EffectiveKeyData {
        EffectiveKeyData {
            selector_path: None,
            context_path: None,
            layer: None,
            origin: CascadeOrigin::Author,
            cascade_phase: CascadePhase::AuthorNormalAndImportant,
            history_segment: HistorySegment::Isolated(rule),
        }
    }

    /// The top-level author context, outside every rule.
    pub closed spec fn spec_top_level() -> EffectiveContext {
        EffectiveContext {
            style_rule: None,
            selector_path: None,
            context_path: None,
            layer: None,
            origin: CascadeOrigin::Author,
            cascade_phase: CascadePhase::AuthorNormalAndImportant,
            history_segment: HistorySegment::StyleCascade,
        }
    }

    /// A context's key keeps its paths and history segment.
    pub proof fn lemma_effective_key_components(self)
        ensures
            self.spec_effective_key().spec_selector_path() == self.spec_selector_path(),
            self.spec_effective_key().spec_context_path() == self.spec_context_path(),
            self.spec_effective_key().spec_layer() == self.spec_layer(),
            self.spec_effective_key().spec_history_segment() == self.spec_history_segment(),
    {
    }

    /// Isolated keys are equal exactly when their rules are, and never equal
    /// a key of the shared style cascade.
    pub proof fn lemma_isolated_keys(a: RuleId, b: RuleId, context: EffectiveContext)
        ensures
            (Self::spec_isolated(a) == Self::spec_isolated(b)) <==> a == b,
            Self::spec_isolated(a).spec_history_segment() == HistorySegment::Isolated(a),
            context.spec_history_segment() == HistorySegment::StyleCascade
                ==> Self::spec_isolated(a) != context.spec_effective_key(),
    {
    }

    /// The innermost enclosing style rule.
    pub fn style_rule(self) -> (r: Option<RuleId>)
        ensures
            r == self.spec_style_rule(),
    {
        self.style_rule
    }

    /// The selector path component.
    pub fn selector_path(self) -> (r: Option<SelectorPathId>)
        ensures
            r == self.spec_selector_path(),
    {
        self.selector_path
    }

    /// The wrapper context path component.
    pub fn context_path(self) -> (r: Option<ContextPathId>)
        ensures
            r == self.spec_context_path(),
    {
        self.context_path
    }

    /// The layer context component.
    pub fn layer(self) -> (r: Option<LayerContextId>)
        ensures
            r == self.spec_layer(),
    {
        self.layer
    }

    /// The effective key that a block declared in this context receives.
    pub fn effective_key(self) -> (r: EffectiveKeyData)
        ensures
            r == self.spec_effective_key(),
    {
        EffectiveKeyData {
            selector_path: self.selector_path,
            context_path: self.context_path,
            layer: self.layer,
            origin: self.origin,
            cascade_phase: self.cascade_phase,
            history_segment: self.history_segment,
        }
    }

    /// The key of a block that keeps its own isolated cascade history.
    pub fn isolated(rule: RuleId) -> (r: EffectiveKeyData)
        ensures
            r == Self::spec_isolated(rule),
    {
        EffectiveKeyData {
            selector_path: None,
            context_path: None,
            layer: None,
            origin: CascadeOrigin::Author,
            cascade_phase: CascadePhase::AuthorNormalAndImportant,
            history_segment: HistorySegment::Isolated(rule),
        }
    }
}

impl Default for EffectiveContext {
    fn default() -> (r: EffectiveContext)
        ensures
            r == EffectiveContext::spec_top_level(),
    {
        EffectiveContext {
            style_rule: None,
            selector_path: None,
            context_path: None,
            layer: None,
            origin: CascadeOrigin::Author,
            cascade_phase: CascadePhase::AuthorNormalAndImportant,
            history_segment: HistorySegment::StyleCascade,
        }
    }
}

/// One canonical selector value: the selector list `S` of a style or nesting
/// rule, its vendor prefix `V` and the fingerprint it is interned under.
pub struct SelectorValueRecord<S, V> {
    selectors: S,
    kind: SelectorFrameKind,
    vendor_prefix: V,
    fingerprint: u64,
}

impl<S, V: Copy> SelectorValueRecord<S, V> {
    /// The selector list.
    pub closed spec fn spec_selectors(&self) -> S {
        self.selectors
    }

    /// The selector-bearing syntax of this value.
    pub closed spec fn spec_kind(&self) -> SelectorFrameKind {
        self.kind
    }

    /// The vendor prefix.
    pub closed spec fn spec_vendor_prefix(&self) -> V {
        self.vendor_prefix
    }

    /// The interning fingerprint.
    pub closed spec fn spec_fingerprint(&self) -> u64 {
        self.fingerprint
    }

    /// A record of `selectors` under `kind` and `vendor_prefix`.
    pub fn new(selectors: S, kind: SelectorFrameKind, vendor_prefix: V, fingerprint: u64) -> (r: Self)
        ensures
            r.spec_selectors() == selectors,
            r.spec_kind() == kind,
            r.spec_vendor_prefix() == vendor_prefix,
            r.spec_fingerprint() == fingerprint,
    {
        SelectorValueRecord { selectors, kind, vendor_prefix, fingerprint }
    }

    /// The selector list.
    pub fn selectors(&self) -> (r: &S)
        ensures
            *r == self.spec_selectors(),
    {
        &self.selectors
    }

    /// The selector-bearing syntax of this value.
    pub fn kind(&self) -> (r: SelectorFrameKind)
        ensures
            r == self.spec_kind(),
    {
        self.kind
    }

    /// The vendor prefix.
    pub fn vendor_prefix(&self) -> (r: V)
        ensures
            r == self.spec_vendor_prefix(),
    {
        self.vendor_prefix
    }

    /// The interning fingerprint.
    pub fn fingerprint(&self) -> (r: u64)
        ensures
            r == self.spec_fingerprint(),
    {
        self.fingerprint
    }
}

} // verus!
