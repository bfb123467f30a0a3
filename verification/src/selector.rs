//! Selector syntax values with a fixed, flat shape.

use vstd::prelude::*;

verus! {

/// How two compound selectors are combined.
#[derive(Debug, Clone, Copy, PartialEq, Eq, Hash)]
pub enum Combinator {
    Child,
    Descendant,
    NextSibling,
    LaterSibling,
    PseudoElement,
    SlotAssignment,
    Part,
    DeepDescendant,
    Deep,
}

/// An attribute selector such as `[ns|name^="value" i]`.
#[derive(Debug, Clone, Copy, PartialEq, Eq, Hash)]
pub struct AttrSelector<'a> {
    pub namespace: Option<NamespaceConstraint<'a>>,
    pub local_name: &'a str,
    pub local_name_lower: &'a str,
    pub operation: AttrOperation<'a>,
    pub never_matches: bool,
}

/// The namespace part of an attribute selector.
#[derive(Debug, Clone, Copy, PartialEq, Eq, Hash)]
pub enum NamespaceConstraint<'a> {
    Any,
    Specific { prefix: &'a str, url: &'a str },
}

/// What an attribute selector tests of the attribute.
#[derive(Debug, Clone, Copy, PartialEq, Eq, Hash)]
pub enum AttrOperation<'a> {
    Exists,
    WithValue {
        operator: AttrSelectorOperator,
        case_sensitivity: ParsedCaseSensitivity,
        expected_value: &'a str,
    },
}

/// The case-sensitivity flag written on an attribute selector.
#[derive(Debug, Clone, Copy, PartialEq, Eq, Hash)]
pub enum ParsedCaseSensitivity {
    ExplicitCaseSensitive,
    AsciiCaseInsensitive,
    CaseSensitive,
    AsciiCaseInsensitiveIfInHtmlElementInHtmlDocument,
}

impl Default for ParsedCaseSensitivity {
    fn default() -> (r: ParsedCaseSensitivity)
        ensures
            r == ParsedCaseSensitivity::CaseSensitive,
    {
        ParsedCaseSensitivity::CaseSensitive
    }
}

/// The comparison operator of an attribute selector.
#[derive(Debug, Clone, Copy, PartialEq, Eq, Hash)]
pub enum AttrSelectorOperator {
    Equal,
    Includes,
    DashMatch,
    Prefix,
    Substring,
    Suffix,
}

/// The family of an `:nth-*` pseudo-class.
#[derive(Debug, Clone, Copy, PartialEq, Eq, Hash)]
pub enum NthType {
    Child,
    LastChild,
    OnlyChild,
    OfType,
    LastOfType,
    OnlyOfType,
    Col,
    LastCol,
}

/// The `an+b` data of an `:nth-*` pseudo-class.
#[derive(Debug, Clone, Copy, PartialEq, Eq, Hash)]
pub struct NthSelectorData {
    pub kind: NthType,
    pub is_function: bool,
    pub a: i32,
    pub b: i32,
}

/// The argument of `:dir()`.
#[derive(Debug, Clone, Copy, PartialEq, Eq, Hash)]
pub enum Direction {
    Ltr,
    Rtl,
}

/// A `::-webkit-scrollbar` state pseudo-class.
#[derive(Debug, Clone, Copy, PartialEq, Eq, Hash)]
pub enum WebKitScrollbarPseudoClass {
    Horizontal,
    Vertical,
    Decrement,
    Increment,
    Start,
    End,
    DoubleButton,
    SingleButton,
    NoButton,
    CornerPresent,
    WindowInactive,
}

/// A `::-webkit-scrollbar` part pseudo-element.
#[derive(Debug, Clone, Copy, PartialEq, Eq, Hash)]
pub enum WebKitScrollbarPseudoElement {
    Scrollbar,
    Button,
    Track,
    TrackPiece,
    Thumb,
    Corner,
    Resizer,
}

/// The name argument of a view-transition pseudo-element.
#[derive(Debug, Clone, Copy, PartialEq, Eq, Hash)]
pub enum ViewTransitionPartName<'a> {
    All,
    Name(&'a str),
}

} // verus!
