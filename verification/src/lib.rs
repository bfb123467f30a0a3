//! Verified dense storage and direct topology for a CSS compiler AST.

pub mod ids;
pub mod span;
pub mod source_order;
pub mod fx_map;
pub mod effective_key;
pub mod records;
pub mod compilation;
pub mod rules;
pub mod selector;
pub mod values;
pub mod reification;
pub mod storage;
pub mod selector_component;
