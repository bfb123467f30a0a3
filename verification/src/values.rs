//! Small property and token values with a fixed, flat shape.

use vstd::prelude::*;

verus! {

/// A dashed identifier (`--name`) kept as authored text.
#[derive(Clone, Copy, Debug, PartialEq)]
pub struct DashedIdent<'a> {
    pub value: &'a str,
}

/// The source a CSS module reference points into.
#[derive(Clone, Copy, Debug, PartialEq)]
pub enum Specifier<'a> {
    Global,
    File(&'a str),
    SourceIndex(u32),
}

/// The value of `animation-name`.
#[derive(Clone, Copy, Debug, PartialEq)]
pub enum AnimationName<'a> {
    /// The keyword `none`.
    NoneKeyword,
    Ident(&'a str),
    String(&'a str),
}

/// A user-agent environment variable usable in `env()`.
#[derive(Clone, Copy, Debug, PartialEq)]
pub enum UAEnvironmentVariable {
    SafeAreaInsetTop,
    SafeAreaInsetRight,
    SafeAreaInsetBottom,
    SafeAreaInsetLeft,
    ViewportSegmentWidth,
    ViewportSegmentHeight,
    ViewportSegmentTop,
    ViewportSegmentLeft,
    ViewportSegmentBottom,
    ViewportSegmentRight,
}

/// The value of `color-scheme`.
#[derive(Debug, PartialEq)]
pub struct ColorScheme {
    pub dark: bool,
    pub light: bool,
    pub only: bool,
}

/// The `navigation` descriptor of `@view-transition`.
#[derive(Debug, PartialEq)]
pub enum Navigation {
    /// The keyword `none`.
    NoneKeyword,
    Auto,
}

} // verus!
