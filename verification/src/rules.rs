//! Rule syntax values and the payloads the compiler stores for them.
//!
//! These are the rule kinds whose stored shape is fully described by a span,
//! names and flags. A rule's payload is what the compilation keeps in its
//! rule record; the rule value carries its source span as well.

use crate::span::Span;
use vstd::prelude::*;

verus! {

/// `@starting-style`.
#[derive(Clone, Copy, Debug, PartialEq, Eq)]
pub struct StartingStyleRule {
    pub span: Span,
}

/// `@layer a, b.c;` — one dotted name per entry.
#[derive(Debug, PartialEq)]
pub struct LayerStatementRule<'ast> {
    pub span: Span,
    pub names: Vec<Vec<&'ast str>>,
}

/// `@layer name { .. }`, or an anonymous layer block.
#[derive(Debug, PartialEq)]
pub struct LayerBlockRule<'ast> {
    pub span: Span,
    pub name: Option<Vec<&'ast str>>,
}

/// `@-moz-document`.
#[derive(Clone, Copy, Debug, PartialEq, Eq)]
pub struct MozDocumentRule {
    pub span: Span,
}

/// `@counter-style name`.
#[derive(Clone, Copy, Debug, PartialEq, Eq)]
pub struct CounterStyleRule<'ast> {
    pub span: Span,
    pub name: &'ast str,
}

/// `@position-try name`.
#[derive(Clone, Copy, Debug, PartialEq, Eq)]
pub struct PositionTryRule<'ast> {
    pub span: Span,
    pub name: &'ast str,
}

/// `@font-face`.
#[derive(Clone, Copy, Debug, PartialEq, Eq)]
pub struct FontFaceRule {
    pub span: Span,
}

/// `@font-palette-values name`.
#[derive(Clone, Copy, Debug, PartialEq, Eq)]
pub struct FontPaletteValuesRule<'ast> {
    pub span: Span,
    pub name: &'ast str,
}

/// `@view-transition`.
#[derive(Clone, Copy, Debug, PartialEq, Eq)]
pub struct ViewTransitionRule {
    pub span: Span,
}

/// Declarations written directly inside `@page`.
#[derive(Clone, Copy, Debug, PartialEq, Eq)]
pub struct PageDeclarationsRule {
    pub span: Span,
}

/// Declarations that follow nested rules inside a style rule.
#[derive(Clone, Copy, Debug, PartialEq, Eq)]
pub struct NestedDeclarationsRule {
    pub span: Span,
}

/// Stored payload of `@starting-style`.
#[derive(Clone, Copy, Debug, PartialEq, Eq)]
pub struct StartingStyleRulePayload;

/// Stored payload of `@layer a, b.c;`.
#[derive(Debug, PartialEq)]
pub struct LayerStatementRulePayload<'ast> {
    pub names: Vec<Vec<&'ast str>>,
}

/// Stored payload of a layer block.
#[derive(Debug, PartialEq)]
pub struct LayerBlockRulePayload<'ast> {
    pub name: Option<Vec<&'ast str>>,
}

/// Stored payload of `@-moz-document`.
#[derive(Clone, Copy, Debug, PartialEq, Eq)]
pub struct MozDocumentRulePayload;

/// Stored payload of `@counter-style`.
#[derive(Clone, Copy, Debug, PartialEq, Eq)]
pub struct CounterStyleRulePayload<'ast> {
    pub name: &'ast str,
}

/// Stored payload of `@position-try`.
#[derive(Clone, Copy, Debug, PartialEq, Eq)]
pub struct PositionTryRulePayload<'ast> {
    pub name: &'ast str,
}

/// Stored payload of `@font-face`.
#[derive(Clone, Copy, Debug, PartialEq, Eq)]
pub struct FontFaceRulePayload;

/// Stored payload of `@font-palette-values`.
#[derive(Clone, Copy, Debug, PartialEq, Eq)]
pub struct FontPaletteValuesRulePayload<'ast> {
    pub name: &'ast str,
}

/// Stored payload of `@view-transition`.
#[derive(Clone, Copy, Debug, PartialEq, Eq)]
pub struct ViewTransitionRulePayload;

/// Stored payload of declarations written directly inside `@page`.
#[derive(Clone, Copy, Debug, PartialEq, Eq)]
pub struct PageDeclarationsPayload;

/// Stored payload of nested declarations.
#[derive(Clone, Copy, Debug, PartialEq, Eq)]
pub struct NestedDeclarationsPayload;

} // verus!
