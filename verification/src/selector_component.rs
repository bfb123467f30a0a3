//! Selector components and their flat node encoding.
//!
//! A component is stored as one node payload of two words. Common variants
//! fit in the payload itself; the fields that do not fit go to typed
//! overflow slots of the shared extra-data table, whose offset the payload
//! keeps. Re-encoding over the payload of a component of the same variant
//! rewrites its overflow slots in place.

use crate::records::DENSE_CAPACITY;
use crate::selector::{AttrSelectorOperator, Combinator, NthSelectorData, NthType, ParsedCaseSensitivity};
use crate::storage::{ExtraData, ExtraDataStore, ExtraRange, NodeId, NodePayload};
use vstd::prelude::*;

verus! {

/// An interned name, found again by its index in the string table.
#[derive(Clone, Copy, Debug, PartialEq, Eq, Hash)]
pub struct Atom(pub u32);

/// A set of vendor prefixes, one bit each.
#[derive(Clone, Copy, Debug, PartialEq, Eq, Hash)]
pub struct VendorPrefix(pub u8);

/// One simple selector or combinator of a compound selector. Lists of
/// selectors or names are persistent lists of the extra-data table.
#[derive(Clone, Copy, Debug, PartialEq, Eq)]
pub enum SelectorComponent {
    Combinator(Combinator),
    ExplicitAnyNamespace,
    ExplicitNoNamespace,
    DefaultNamespace(Atom),
    Namespace { prefix: Atom, url: Atom },
    ExplicitUniversalType,
    LocalName { name: Atom, lower_name: Atom },
    Id(Atom),
    Class(Atom),
    AttributeInNoNamespaceExists { local_name: Atom, local_name_lower: Atom },
    AttributeInNoNamespace {
        local_name: Atom,
        operator: AttrSelectorOperator,
        value: Atom,
        case_sensitivity: ParsedCaseSensitivity,
        never_matches: bool,
    },
    AttributeOther(NodeId),
    Negation(ExtraRange),
    Root,
    Empty,
    Scope,
    Nth(NthSelectorData),
    NthOf { data: NthSelectorData, selectors: ExtraRange },
    PseudoClass(NodeId),
    Slotted(NodeId),
    Part(ExtraRange),
    Host(Option<NodeId>),
    Where(ExtraRange),
    Is(ExtraRange),
    Any { vendor_prefix: VendorPrefix, selectors: ExtraRange },
    Has(ExtraRange),
    PseudoElement(NodeId),
    Nesting,
}

/// The payload form of a component: the fields that fit inline, and the
/// offset of the overflow slots of those that do not.
#[derive(Clone, Copy, Debug, PartialEq, Eq)]
pub enum SelectorComponentSlot {
    Combinator(Combinator),
    ExplicitAnyNamespace,
    ExplicitNoNamespace,
    DefaultNamespace(Atom),
    Namespace { prefix: Atom, extra: u32 },
    ExplicitUniversalType,
    LocalName { name: Atom, extra: u32 },
    Id(Atom),
    Class(Atom),
    AttributeInNoNamespaceExists { local_name: Atom, extra: u32 },
    AttributeInNoNamespace { local_name: Atom, extra: u32 },
    AttributeOther(NodeId),
    Negation(ExtraRange),
    Root,
    Empty,
    Scope,
    Nth(NthSelectorData),
    NthOf { extra: u32, selectors: ExtraRange },
    PseudoClass(NodeId),
    Slotted(NodeId),
    Part(ExtraRange),
    Host(Option<NodeId>),
    Where(ExtraRange),
    Is(ExtraRange),
    Any { vendor_prefix: VendorPrefix, selectors: ExtraRange },
    Has(ExtraRange),
    PseudoElement(NodeId),
    Nesting,
}

/// The word holding `lo` in its low half and `hi` in its high half.
pub open spec fn pack(lo: u32, hi: u32) -> u64 {
    (lo as int + hi as int * 0x1_0000_0000) as u64
}

/// The low half of a word.
pub open spec fn low_half(w: u64) -> u32 {
    (w % 0x1_0000_0000) as u32
}

/// The high half of a word.
pub open spec fn high_half(w: u64) -> u32 {
    (w / 0x1_0000_0000) as u32
}

/// The halves of a packed word are the packed values.
pub proof fn lemma_pack(lo: u32, hi: u32)
    ensures
        low_half(pack(lo, hi)) == lo,
        high_half(pack(lo, hi)) == hi,
{
    let x = lo as int + hi as int * 0x1_0000_0000;
    assert(x < 0x1_0000_0000_0000_0000);
    vstd::arithmetic::div_mod::lemma_fundamental_div_mod_converse(x, 0x1_0000_0000, hi as int, lo as int);
}

fn pack_words(lo: u32, hi: u32) -> (r: u64)
    ensures
        r == pack(lo, hi),
{
    (lo as u64) + (hi as u64) * 0x1_0000_0000u64
}

fn low_half_of(w: u64) -> (r: u32)
    ensures
        r == low_half(w),
{
    (w % 0x1_0000_0000u64) as u32
}

fn high_half_of(w: u64) -> (r: u32)
    ensures
        r == high_half(w),
{
    (w / 0x1_0000_0000u64) as u32
}

/// The code of a combinator.
pub open spec fn combinator_code(c: Combinator) -> u32 {
    match c {
        Combinator::Child => 0,
        Combinator::Descendant => 1,
        Combinator::NextSibling => 2,
        Combinator::LaterSibling => 3,
        Combinator::PseudoElement => 4,
        Combinator::SlotAssignment => 5,
        Combinator::Part => 6,
        Combinator::DeepDescendant => 7,
        Combinator::Deep => 8,
    }
}

/// The combinator of a code; unknown codes read as the last one.
pub open spec fn combinator_of_code(code: u32) -> Combinator {
    if code == 0 {
        Combinator::Child
    } else if code == 1 {
        Combinator::Descendant
    } else if code == 2 {
        Combinator::NextSibling
    } else if code == 3 {
        Combinator::LaterSibling
    } else if code == 4 {
        Combinator::PseudoElement
    } else if code == 5 {
        Combinator::SlotAssignment
    } else if code == 6 {
        Combinator::Part
    } else if code == 7 {
        Combinator::DeepDescendant
    } else {
        Combinator::Deep
    }
}

fn encode_combinator(c: Combinator) -> (r: u32)
    ensures
        r == combinator_code(c),
        r < 16,
        combinator_of_code(r) == c,
{
    match c {
        Combinator::Child => 0,
        Combinator::Descendant => 1,
        Combinator::NextSibling => 2,
        Combinator::LaterSibling => 3,
        Combinator::PseudoElement => 4,
        Combinator::SlotAssignment => 5,
        Combinator::Part => 6,
        Combinator::DeepDescendant => 7,
        Combinator::Deep => 8,
    }
}

fn decode_combinator(code: u32) -> (r: Combinator)
    ensures
        r == combinator_of_code(code),
{
    if code == 0 {
        Combinator::Child
    } else if code == 1 {
        Combinator::Descendant
    } else if code == 2 {
        Combinator::NextSibling
    } else if code == 3 {
        Combinator::LaterSibling
    } else if code == 4 {
        Combinator::PseudoElement
    } else if code == 5 {
        Combinator::SlotAssignment
    } else if code == 6 {
        Combinator::Part
    } else if code == 7 {
        Combinator::DeepDescendant
    } else {
        Combinator::Deep
    }
}

/// The family of an `:nth-*` pseudo-class whose code is `code`; unknown
/// codes read as the last one.
pub open spec fn nth_type_of_code(code: u32) -> NthType {
    if code == 0 {
        NthType::Child
    } else if code == 1 {
        NthType::LastChild
    } else if code == 2 {
        NthType::OnlyChild
    } else if code == 3 {
        NthType::OfType
    } else if code == 4 {
        NthType::LastOfType
    } else if code == 5 {
        NthType::OnlyOfType
    } else if code == 6 {
        NthType::Col
    } else {
        NthType::LastCol
    }
}

fn encode_nth_type(t: NthType) -> (r: u32)
    ensures
        r < 8,
        nth_type_of_code(r) == t,
{
    match t {
        NthType::Child => 0,
        NthType::LastChild => 1,
        NthType::OnlyChild => 2,
        NthType::OfType => 3,
        NthType::LastOfType => 4,
        NthType::OnlyOfType => 5,
        NthType::Col => 6,
        NthType::LastCol => 7,
    }
}

fn decode_nth_type(code: u32) -> (r: NthType)
    ensures
        r == nth_type_of_code(code),
{
    if code == 0 {
        NthType::Child
    } else if code == 1 {
        NthType::LastChild
    } else if code == 2 {
        NthType::OnlyChild
    } else if code == 3 {
        NthType::OfType
    } else if code == 4 {
        NthType::LastOfType
    } else if code == 5 {
        NthType::OnlyOfType
    } else if code == 6 {
        NthType::Col
    } else {
        NthType::LastCol
    }
}

/// The attribute operator whose code is `code`; unknown codes read as the
/// last one.
pub open spec fn operator_of_code(code: u32) -> AttrSelectorOperator {
    if code == 0 {
        AttrSelectorOperator::Equal
    } else if code == 1 {
        AttrSelectorOperator::Includes
    } else if code == 2 {
        AttrSelectorOperator::DashMatch
    } else if code == 3 {
        AttrSelectorOperator::Prefix
    } else if code == 4 {
        AttrSelectorOperator::Substring
    } else {
        AttrSelectorOperator::Suffix
    }
}

fn encode_operator(o: AttrSelectorOperator) -> (r: u32)
    ensures
        r < 8,
        operator_of_code(r) == o,
{
    match o {
        AttrSelectorOperator::Equal => 0,
        AttrSelectorOperator::Includes => 1,
        AttrSelectorOperator::DashMatch => 2,
        AttrSelectorOperator::Prefix => 3,
        AttrSelectorOperator::Substring => 4,
        AttrSelectorOperator::Suffix => 5,
    }
}

fn decode_operator(code: u32) -> (r: AttrSelectorOperator)
    ensures
        r == operator_of_code(code),
{
    if code == 0 {
        AttrSelectorOperator::Equal
    } else if code == 1 {
        AttrSelectorOperator::Includes
    } else if code == 2 {
        AttrSelectorOperator::DashMatch
    } else if code == 3 {
        AttrSelectorOperator::Prefix
    } else if code == 4 {
        AttrSelectorOperator::Substring
    } else {
        AttrSelectorOperator::Suffix
    }
}

/// The case-sensitivity flag whose code is `code`; unknown codes read as
/// the last one.
pub open spec fn case_of_code(code: u32) -> ParsedCaseSensitivity {
    if code == 0 {
        ParsedCaseSensitivity::ExplicitCaseSensitive
    } else if code == 1 {
        ParsedCaseSensitivity::AsciiCaseInsensitive
    } else if code == 2 {
        ParsedCaseSensitivity::CaseSensitive
    } else {
        ParsedCaseSensitivity::AsciiCaseInsensitiveIfInHtmlElementInHtmlDocument
    }
}

fn encode_case(c: ParsedCaseSensitivity) -> (r: u32)
    ensures
        r < 4,
        case_of_code(r) == c,
{
    match c {
        ParsedCaseSensitivity::ExplicitCaseSensitive => 0,
        ParsedCaseSensitivity::AsciiCaseInsensitive => 1,
        ParsedCaseSensitivity::CaseSensitive => 2,
        ParsedCaseSensitivity::AsciiCaseInsensitiveIfInHtmlElementInHtmlDocument => 3,
    }
}

fn decode_case(code: u32) -> (r: ParsedCaseSensitivity)
    ensures
        r == case_of_code(code),
{
    if code == 0 {
        ParsedCaseSensitivity::ExplicitCaseSensitive
    } else if code == 1 {
        ParsedCaseSensitivity::AsciiCaseInsensitive
    } else if code == 2 {
        ParsedCaseSensitivity::CaseSensitive
    } else {
        ParsedCaseSensitivity::AsciiCaseInsensitiveIfInHtmlElementInHtmlDocument
    }
}


/// The slot described by a tag, the small inline fields, an overflow
/// offset and two 32-bit fields.
pub open spec fn slot_of_fields(tag: u32, small: u32, extra: u32, f1: u32, f2: u32) -> SelectorComponentSlot {
    let range = ExtraRange::spec_clamped(f1, f2);
    if tag == 0 {
        SelectorComponentSlot::Combinator(combinator_of_code(small))
    } else if tag == 1 {
        SelectorComponentSlot::ExplicitAnyNamespace
    } else if tag == 2 {
        SelectorComponentSlot::ExplicitNoNamespace
    } else if tag == 3 {
        SelectorComponentSlot::DefaultNamespace(Atom(f1))
    } else if tag == 4 {
        SelectorComponentSlot::Namespace { prefix: Atom(f1), extra }
    } else if tag == 5 {
        SelectorComponentSlot::ExplicitUniversalType
    } else if tag == 6 {
        SelectorComponentSlot::LocalName { name: Atom(f1), extra }
    } else if tag == 7 {
        SelectorComponentSlot::Id(Atom(f1))
    } else if tag == 8 {
        SelectorComponentSlot::Class(Atom(f1))
    } else if tag == 9 {
        SelectorComponentSlot::AttributeInNoNamespaceExists { local_name: Atom(f1), extra }
    } else if tag == 10 {
        SelectorComponentSlot::AttributeInNoNamespace { local_name: Atom(f1), extra }
    } else if tag == 11 {
        SelectorComponentSlot::AttributeOther(NodeId(f1))
    } else if tag == 12 {
        SelectorComponentSlot::Negation(range)
    } else if tag == 13 {
        SelectorComponentSlot::Root
    } else if tag == 14 {
        SelectorComponentSlot::Empty
    } else if tag == 15 {
        SelectorComponentSlot::Scope
    } else if tag == 16 {
        SelectorComponentSlot::Nth(NthSelectorData {
            kind: nth_type_of_code(small % 8),
            is_function: small / 8 % 2 == 1,
            a: f1 as i32,
            b: f2 as i32,
        })
    } else if tag == 17 {
        SelectorComponentSlot::NthOf { extra, selectors: range }
    } else if tag == 18 {
        SelectorComponentSlot::PseudoClass(NodeId(f1))
    } else if tag == 19 {
        SelectorComponentSlot::Slotted(NodeId(f1))
    } else if tag == 20 {
        SelectorComponentSlot::Part(range)
    } else if tag == 21 {
        SelectorComponentSlot::Host(if small % 2 == 1 { Some(NodeId(f1)) } else { None })
    } else if tag == 22 {
        SelectorComponentSlot::Where(range)
    } else if tag == 23 {
        SelectorComponentSlot::Is(range)
    } else if tag == 24 {
        SelectorComponentSlot::Any { vendor_prefix: VendorPrefix((small % 256) as u8), selectors: range }
    } else if tag == 25 {
        SelectorComponentSlot::Has(range)
    } else if tag == 26 {
        SelectorComponentSlot::PseudoElement(NodeId(f1))
    } else {
        SelectorComponentSlot::Nesting
    }
}

/// The slot a payload describes: the low word holds the tag and small
/// fields (tag in the low byte) in its low half and the overflow offset in
/// its high half; the high word holds two 32-bit fields.
pub open spec fn slot_of_payload(payload: NodePayload) -> SelectorComponentSlot {
    let low = payload.spec_low().word();
    let high = payload.spec_high().word();
    slot_of_fields(low_half(low) % 256, low_half(low) / 256, high_half(low), low_half(high), high_half(high))
}

/// The inline fields of a slot: tag, small fields, overflow offset and two
/// 32-bit fields.
fn slot_fields(slot: SelectorComponentSlot) -> (r: (u32, u32, u32, u32, u32))
    ensures
        r.0 < 256,
        r.1 < 256,
        slot_of_fields(r.0, r.1, r.2, r.3, r.4) == slot,
{
    match slot {
        SelectorComponentSlot::Combinator(c) => (0, encode_combinator(c), 0, 0, 0),
        SelectorComponentSlot::ExplicitAnyNamespace => (1, 0, 0, 0, 0),
        SelectorComponentSlot::ExplicitNoNamespace => (2, 0, 0, 0, 0),
        SelectorComponentSlot::DefaultNamespace(a) => (3, 0, 0, a.0, 0),
        SelectorComponentSlot::Namespace { prefix, extra } => (4, 0, extra, prefix.0, 0),
        SelectorComponentSlot::ExplicitUniversalType => (5, 0, 0, 0, 0),
        SelectorComponentSlot::LocalName { name, extra } => (6, 0, extra, name.0, 0),
        SelectorComponentSlot::Id(a) => (7, 0, 0, a.0, 0),
        SelectorComponentSlot::Class(a) => (8, 0, 0, a.0, 0),
        SelectorComponentSlot::AttributeInNoNamespaceExists { local_name, extra } => (9, 0, extra, local_name.0, 0),
        SelectorComponentSlot::AttributeInNoNamespace { local_name, extra } => (10, 0, extra, local_name.0, 0),
        SelectorComponentSlot::AttributeOther(n) => (11, 0, 0, n.0, 0),
        SelectorComponentSlot::Negation(range) => {
            let (a, b) = range.bounds();
            (12, 0, 0, a, b)
        },
        SelectorComponentSlot::Root => (13, 0, 0, 0, 0),
        SelectorComponentSlot::Empty => (14, 0, 0, 0, 0),
        SelectorComponentSlot::Scope => (15, 0, 0, 0, 0),
        SelectorComponentSlot::Nth(data) => {
            let kind = encode_nth_type(data.kind);
            let small = if data.is_function { kind + 8 } else { kind };
            let a = data.a;
            let b = data.b;
            proof {
                assert((a as u32) as i32 == a) by (bit_vector);
                assert((b as u32) as i32 == b) by (bit_vector);
            }
            (16, small, 0, a as u32, b as u32)
        },
        SelectorComponentSlot::NthOf { extra, selectors } => {
            let (a, b) = selectors.bounds();
            (17, 0, extra, a, b)
        },
        SelectorComponentSlot::PseudoClass(n) => (18, 0, 0, n.0, 0),
        SelectorComponentSlot::Slotted(n) => (19, 0, 0, n.0, 0),
        SelectorComponentSlot::Part(range) => {
            let (a, b) = range.bounds();
            (20, 0, 0, a, b)
        },
        SelectorComponentSlot::Host(host) => match host {
            Some(n) => (21, 1, 0, n.0, 0),
            None => (21, 0, 0, 0, 0),
        },
        SelectorComponentSlot::Where(range) => {
            let (a, b) = range.bounds();
            (22, 0, 0, a, b)
        },
        SelectorComponentSlot::Is(range) => {
            let (a, b) = range.bounds();
            (23, 0, 0, a, b)
        },
        SelectorComponentSlot::Any { vendor_prefix, selectors } => {
            let (a, b) = selectors.bounds();
            (24, vendor_prefix.0 as u32, 0, a, b)
        },
        SelectorComponentSlot::Has(range) => {
            let (a, b) = range.bounds();
            (25, 0, 0, a, b)
        },
        SelectorComponentSlot::PseudoElement(n) => (26, 0, 0, n.0, 0),
        SelectorComponentSlot::Nesting => (27, 0, 0, 0, 0),
    }
}

/// Encodes a slot into a payload that describes it.
fn encode_slot(slot: SelectorComponentSlot) -> (r: NodePayload)
    ensures
        slot_of_payload(r) == slot,
{
    let (tag, small, extra, f1, f2) = slot_fields(slot);
    let head = tag + small * 256;
    proof {
        vstd::arithmetic::div_mod::lemma_fundamental_div_mod_converse(head as int, 256, small as int, tag as int);
        lemma_pack(head, extra);
        lemma_pack(f1, f2);
    }
    let low = ExtraData::from_word(pack_words(head, extra));
    let high = ExtraData::from_word(pack_words(f1, f2));
    NodePayload::from_halves(low, high)
}

/// Reads the slot a payload describes.
fn decode_slot(payload: NodePayload) -> (r: SelectorComponentSlot)
    ensures
        r == slot_of_payload(payload),
{
    let low = payload.low().to_word();
    let high = payload.high().to_word();
    let head = low_half_of(low);
    let tag = head % 256;
    let small = head / 256;
    let extra = high_half_of(low);
    let f1 = low_half_of(high);
    let f2 = high_half_of(high);
    if tag == 0 {
        SelectorComponentSlot::Combinator(decode_combinator(small))
    } else if tag == 1 {
        SelectorComponentSlot::ExplicitAnyNamespace
    } else if tag == 2 {
        SelectorComponentSlot::ExplicitNoNamespace
    } else if tag == 3 {
        SelectorComponentSlot::DefaultNamespace(Atom(f1))
    } else if tag == 4 {
        SelectorComponentSlot::Namespace { prefix: Atom(f1), extra }
    } else if tag == 5 {
        SelectorComponentSlot::ExplicitUniversalType
    } else if tag == 6 {
        SelectorComponentSlot::LocalName { name: Atom(f1), extra }
    } else if tag == 7 {
        SelectorComponentSlot::Id(Atom(f1))
    } else if tag == 8 {
        SelectorComponentSlot::Class(Atom(f1))
    } else if tag == 9 {
        SelectorComponentSlot::AttributeInNoNamespaceExists { local_name: Atom(f1), extra }
    } else if tag == 10 {
        SelectorComponentSlot::AttributeInNoNamespace { local_name: Atom(f1), extra }
    } else if tag == 11 {
        SelectorComponentSlot::AttributeOther(NodeId(f1))
    } else if tag == 12 {
        SelectorComponentSlot::Negation(ExtraRange::clamped(f1, f2))
    } else if tag == 13 {
        SelectorComponentSlot::Root
    } else if tag == 14 {
        SelectorComponentSlot::Empty
    } else if tag == 15 {
        SelectorComponentSlot::Scope
    } else if tag == 16 {
        SelectorComponentSlot::Nth(NthSelectorData {
            kind: decode_nth_type(small % 8),
            is_function: small / 8 % 2 == 1,
            a: f1 as i32,
            b: f2 as i32,
        })
    } else if tag == 17 {
        SelectorComponentSlot::NthOf { extra, selectors: ExtraRange::clamped(f1, f2) }
    } else if tag == 18 {
        SelectorComponentSlot::PseudoClass(NodeId(f1))
    } else if tag == 19 {
        SelectorComponentSlot::Slotted(NodeId(f1))
    } else if tag == 20 {
        SelectorComponentSlot::Part(ExtraRange::clamped(f1, f2))
    } else if tag == 21 {
        SelectorComponentSlot::Host(if small % 2 == 1 { Some(NodeId(f1)) } else { None })
    } else if tag == 22 {
        SelectorComponentSlot::Where(ExtraRange::clamped(f1, f2))
    } else if tag == 23 {
        SelectorComponentSlot::Is(ExtraRange::clamped(f1, f2))
    } else if tag == 24 {
        SelectorComponentSlot::Any { vendor_prefix: VendorPrefix((small % 256) as u8), selectors: ExtraRange::clamped(f1, f2) }
    } else if tag == 25 {
        SelectorComponentSlot::Has(ExtraRange::clamped(f1, f2))
    } else if tag == 26 {
        SelectorComponentSlot::PseudoElement(NodeId(f1))
    } else {
        SelectorComponentSlot::Nesting
    }
}

/// The word of slot `i` of `slots`, or zero past its end.
pub open spec fn word_at(slots: Seq<ExtraData>, i: int) -> u64 {
    if 0 <= i < slots.len() {
        slots[i].word()
    } else {
        0
    }
}

fn read_word(store: &ExtraDataStore, i: u32) -> (r: u64)
    ensures
        r == word_at(store.slots(), i as int),
{
    if (i as usize) < store.len() {
        store.get_at(i as usize).to_word()
    } else {
        0
    }
}

/// The overflow slots of a slot: their first offset and their number.
pub open spec fn extra_span(slot: SelectorComponentSlot) -> (int, int) {
    match slot {
        SelectorComponentSlot::Namespace { extra, .. } => (extra as int, 1),
        SelectorComponentSlot::LocalName { extra, .. } => (extra as int, 1),
        SelectorComponentSlot::AttributeInNoNamespaceExists { extra, .. } => (extra as int, 1),
        SelectorComponentSlot::AttributeInNoNamespace { extra, .. } => (extra as int, 2),
        SelectorComponentSlot::NthOf { extra, .. } => (extra as int, 2),
        _ => (0, 0),
    }
}

/// Writes `slots` over the overflow slots at `current` when the table holds
/// them all, or else appends them; returns their first offset.
fn write_component_extra(slots: Vec<ExtraData>, current: Option<u32>, store: &mut ExtraDataStore) -> (r: u32)
    requires
        old(store).wf(),
        1 <= slots@.len() <= 2,
        old(store).slots().len() + slots@.len() <= DENSE_CAPACITY,
    ensures
        final(store).wf(),
        r + slots@.len() <= final(store).slots().len(),
        forall|i: int| 0 <= i < slots@.len() ==> final(store).slots()[r + i] == slots@[i],
        current matches Some(e) ==> (e + slots@.len() <= old(store).slots().len()
            ==> r == e && final(store).slots().len() == old(store).slots().len()),
        !(current matches Some(e) && e + slots@.len() <= old(store).slots().len())
            ==> r == old(store).slots().len() && final(store).slots() == old(store).slots() + slots@,
        forall|j: int| 0 <= j < old(store).slots().len() && !(r <= j < r + slots@.len())
            ==> final(store).slots()[j] == old(store).slots()[j],
{
    if let Some(extra) = current {
        if slots.len() <= store.len() && (extra as usize) <= store.len() - slots.len() {
            store.set_at(extra as usize, slots[0]);
            if slots.len() == 2 {
                store.set_at(extra as usize + 1, slots[1]);
            }
            return extra;
        }
    }
    let range = store.push_slots(slots);
    range.start_index() as u32
}

/// The component a slot describes, reading its overflow fields from
/// `slots`.
pub open spec fn component_of_slot(slot: SelectorComponentSlot, slots: Seq<ExtraData>) -> SelectorComponent {
    match slot {
        SelectorComponentSlot::Combinator(c) => SelectorComponent::Combinator(c),
        SelectorComponentSlot::ExplicitAnyNamespace => SelectorComponent::ExplicitAnyNamespace,
        SelectorComponentSlot::ExplicitNoNamespace => SelectorComponent::ExplicitNoNamespace,
        SelectorComponentSlot::DefaultNamespace(a) => SelectorComponent::DefaultNamespace(a),
        SelectorComponentSlot::Namespace { prefix, extra } =>
            SelectorComponent::Namespace { prefix, url: Atom(word_at(slots, extra as int) as u32) },
        SelectorComponentSlot::ExplicitUniversalType => SelectorComponent::ExplicitUniversalType,
        SelectorComponentSlot::LocalName { name, extra } =>
            SelectorComponent::LocalName { name, lower_name: Atom(word_at(slots, extra as int) as u32) },
        SelectorComponentSlot::Id(a) => SelectorComponent::Id(a),
        SelectorComponentSlot::Class(a) => SelectorComponent::Class(a),
        SelectorComponentSlot::AttributeInNoNamespaceExists { local_name, extra } =>
            SelectorComponent::AttributeInNoNamespaceExists {
                local_name,
                local_name_lower: Atom(word_at(slots, extra as int) as u32),
            },
        SelectorComponentSlot::AttributeInNoNamespace { local_name, extra } => {
            let flags = word_at(slots, extra + 1);
            SelectorComponent::AttributeInNoNamespace {
                local_name,
                value: Atom(word_at(slots, extra as int) as u32),
                operator: operator_of_code((flags % 8) as u32),
                case_sensitivity: case_of_code((flags / 8 % 4) as u32),
                never_matches: flags / 32 % 2 == 1,
            }
        },
        SelectorComponentSlot::AttributeOther(n) => SelectorComponent::AttributeOther(n),
        SelectorComponentSlot::Negation(r) => SelectorComponent::Negation(r),
        SelectorComponentSlot::Root => SelectorComponent::Root,
        SelectorComponentSlot::Empty => SelectorComponent::Empty,
        SelectorComponentSlot::Scope => SelectorComponent::Scope,
        SelectorComponentSlot::Nth(d) => SelectorComponent::Nth(d),
        SelectorComponentSlot::NthOf { extra, selectors } => {
            let ab = word_at(slots, extra as int);
            let flags = word_at(slots, extra + 1);
            SelectorComponent::NthOf {
                data: NthSelectorData {
                    kind: nth_type_of_code((flags % 8) as u32),
                    is_function: flags / 8 % 2 == 1,
                    a: low_half(ab) as i32,
                    b: high_half(ab) as i32,
                },
                selectors,
            }
        },
        SelectorComponentSlot::PseudoClass(n) => SelectorComponent::PseudoClass(n),
        SelectorComponentSlot::Slotted(n) => SelectorComponent::Slotted(n),
        SelectorComponentSlot::Part(r) => SelectorComponent::Part(r),
        SelectorComponentSlot::Host(h) => SelectorComponent::Host(h),
        SelectorComponentSlot::Where(r) => SelectorComponent::Where(r),
        SelectorComponentSlot::Is(r) => SelectorComponent::Is(r),
        SelectorComponentSlot::Any { vendor_prefix, selectors } => SelectorComponent::Any { vendor_prefix, selectors },
        SelectorComponentSlot::Has(r) => SelectorComponent::Has(r),
        SelectorComponentSlot::PseudoElement(n) => SelectorComponent::PseudoElement(n),
        SelectorComponentSlot::Nesting => SelectorComponent::Nesting,
    }
}

/// What writing `count` overflow slots at offset `r` did to the table: the
/// table is well formed, grew by none or all of them, and holds the rest
/// unchanged.
pub open spec fn extra_written(before: Seq<ExtraData>, after: Seq<ExtraData>, current: Option<u32>, r: u32, count: int) -> bool {
    &&& r + count <= after.len()
    &&& (current matches Some(e) ==> (e + count <= before.len() ==> r == e && after.len() == before.len()))
    &&& (!(current matches Some(e) && e + count <= before.len()) ==> r == before.len() && after.len() == before.len() + count)
    &&& forall|j: int| 0 <= j < before.len() && !(r <= j < r + count) ==> after[j] == before[j]
}

/// Writes a name to one overflow slot.
fn write_atom_extra(atom: Atom, current: Option<u32>, store: &mut ExtraDataStore) -> (r: u32)
    requires
        old(store).wf(),
        old(store).slots().len() + 2 <= DENSE_CAPACITY,
    ensures
        final(store).wf(),
        Atom(word_at(final(store).slots(), r as int) as u32) == atom,
        extra_written(old(store).slots(), final(store).slots(), current, r, 1),
{
    let mut slots: Vec<ExtraData> = Vec::new();
    slots.push(ExtraData::from_word(atom.0 as u64));
    let r = write_component_extra(slots, current, store);
    proof {
        assert(final(store).slots()[r + 0] == slots@[0]);
    }
    r
}

/// Writes the value and flags of an attribute test to two overflow slots.
fn write_attr_extra(value: Atom, operator: AttrSelectorOperator, case_sensitivity: ParsedCaseSensitivity,
    never_matches: bool, current: Option<u32>, store: &mut ExtraDataStore) -> (r: u32)
    requires
        old(store).wf(),
        old(store).slots().len() + 2 <= DENSE_CAPACITY,
    ensures
        final(store).wf(),
        Atom(word_at(final(store).slots(), r as int) as u32) == value,
        operator_of_code((word_at(final(store).slots(), r + 1) % 8) as u32) == operator,
        case_of_code((word_at(final(store).slots(), r + 1) / 8 % 4) as u32) == case_sensitivity,
        (word_at(final(store).slots(), r + 1) / 32 % 2 == 1) == never_matches,
        extra_written(old(store).slots(), final(store).slots(), current, r, 2),
{
    let op = encode_operator(operator);
    let case = encode_case(case_sensitivity);
    let never: u32 = if never_matches { 1 } else { 0 };
    let inner = case + 4 * never;
    let flags = op + 8 * inner;
    proof {
        vstd::arithmetic::div_mod::lemma_fundamental_div_mod_converse(flags as int, 8, inner as int, op as int);
        vstd::arithmetic::div_mod::lemma_fundamental_div_mod_converse(inner as int, 4, never as int, case as int);
        vstd::arithmetic::div_mod::lemma_fundamental_div_mod_converse(flags as int, 32, never as int, (op + 8 * case) as int);
        vstd::arithmetic::div_mod::lemma_fundamental_div_mod_converse(never as int, 2, 0, never as int);
    }
    let mut slots: Vec<ExtraData> = Vec::new();
    slots.push(ExtraData::from_word(value.0 as u64));
    slots.push(ExtraData::from_word(flags as u64));
    let r = write_component_extra(slots, current, store);
    proof {
        assert(final(store).slots()[r + 0] == slots@[0]);
        assert(final(store).slots()[r + 1] == slots@[1]);
    }
    r
}

/// Writes `:nth-*` data to two overflow slots.
fn write_nth_extra(data: NthSelectorData, current: Option<u32>, store: &mut ExtraDataStore) -> (r: u32)
    requires
        old(store).wf(),
        old(store).slots().len() + 2 <= DENSE_CAPACITY,
    ensures
        final(store).wf(),
        nth_type_of_code((word_at(final(store).slots(), r + 1) % 8) as u32) == data.kind,
        (word_at(final(store).slots(), r + 1) / 8 % 2 == 1) == data.is_function,
        low_half(word_at(final(store).slots(), r as int)) as i32 == data.a,
        high_half(word_at(final(store).slots(), r as int)) as i32 == data.b,
        extra_written(old(store).slots(), final(store).slots(), current, r, 2),
{
    let kind = encode_nth_type(data.kind);
    let function: u32 = if data.is_function { 1 } else { 0 };
    let flags = kind + 8 * function;
    let a = data.a;
    let b = data.b;
    proof {
        vstd::arithmetic::div_mod::lemma_fundamental_div_mod_converse(flags as int, 8, function as int, kind as int);
        vstd::arithmetic::div_mod::lemma_fundamental_div_mod_converse(function as int, 2, 0, function as int);
        assert((a as u32) as i32 == a) by (bit_vector);
        assert((b as u32) as i32 == b) by (bit_vector);
        lemma_pack(a as u32, b as u32);
    }
    let mut slots: Vec<ExtraData> = Vec::new();
    slots.push(ExtraData::from_word(pack_words(a as u32, b as u32)));
    slots.push(ExtraData::from_word(flags as u64));
    let r = write_component_extra(slots, current, store);
    proof {
        assert(final(store).slots()[r + 0] == slots@[0]);
        assert(final(store).slots()[r + 1] == slots@[1]);
    }
    r
}

/// The overflow offset of `current` that encoding `component` over it
/// reuses: that of a slot of the same variant.
pub open spec fn reused_extra(component: SelectorComponent, current: Option<SelectorComponentSlot>) -> Option<u32> {
    match (component, current) {
        (SelectorComponent::Namespace { .. }, Some(SelectorComponentSlot::Namespace { extra, .. })) => Some(extra),
        (SelectorComponent::LocalName { .. }, Some(SelectorComponentSlot::LocalName { extra, .. })) => Some(extra),
        (SelectorComponent::AttributeInNoNamespaceExists { .. },
            Some(SelectorComponentSlot::AttributeInNoNamespaceExists { extra, .. })) => Some(extra),
        (SelectorComponent::AttributeInNoNamespace { .. },
            Some(SelectorComponentSlot::AttributeInNoNamespace { extra, .. })) => Some(extra),
        (SelectorComponent::NthOf { .. }, Some(SelectorComponentSlot::NthOf { extra, .. })) => Some(extra),
        _ => None,
    }
}

impl SelectorComponent {
    /// The component that a payload, with the overflow slots `slots`,
    /// describes.
    pub open spec fn spec_from_payload(payload: NodePayload, slots: Seq<ExtraData>) -> SelectorComponent {
        component_of_slot(slot_of_payload(payload), slots)
    }

    /// Reads the component a slot describes, its overflow fields from the
    /// table.
    fn from_slot(slot: SelectorComponentSlot, store: &ExtraDataStore) -> (r: SelectorComponent)
        requires
            store.wf(),
        ensures
            r == component_of_slot(slot, store.slots()),
    {
        match slot {
            SelectorComponentSlot::Namespace { prefix, extra } =>
                SelectorComponent::Namespace { prefix, url: Atom(read_word(store, extra) as u32) },
            SelectorComponentSlot::LocalName { name, extra } =>
                SelectorComponent::LocalName { name, lower_name: Atom(read_word(store, extra) as u32) },
            SelectorComponentSlot::AttributeInNoNamespaceExists { local_name, extra } =>
                SelectorComponent::AttributeInNoNamespaceExists {
                    local_name,
                    local_name_lower: Atom(read_word(store, extra) as u32),
                },
            SelectorComponentSlot::AttributeInNoNamespace { local_name, extra } => {
                let value = read_word(store, extra);
                let flags = if extra < u32::MAX { read_word(store, extra + 1) } else { 0 };
                proof {
                    if extra == u32::MAX {
                        assert(extra + 1 >= store.slots().len());
                    }
                }
                SelectorComponent::AttributeInNoNamespace {
                    local_name,
                    value: Atom(value as u32),
                    operator: decode_operator((flags % 8) as u32),
                    case_sensitivity: decode_case((flags / 8 % 4) as u32),
                    never_matches: flags / 32 % 2 == 1,
                }
            },
            SelectorComponentSlot::NthOf { extra, selectors } => {
                let ab = read_word(store, extra);
                let flags = if extra < u32::MAX { read_word(store, extra + 1) } else { 0 };
                proof {
                    if extra == u32::MAX {
                        assert(extra + 1 >= store.slots().len());
                    }
                }
                SelectorComponent::NthOf {
                    data: NthSelectorData {
                        kind: decode_nth_type((flags % 8) as u32),
                        is_function: flags / 8 % 2 == 1,
                        a: low_half_of(ab) as i32,
                        b: high_half_of(ab) as i32,
                    },
                    selectors,
                }
            },
            SelectorComponentSlot::Combinator(c) => SelectorComponent::Combinator(c),
            SelectorComponentSlot::ExplicitAnyNamespace => SelectorComponent::ExplicitAnyNamespace,
            SelectorComponentSlot::ExplicitNoNamespace => SelectorComponent::ExplicitNoNamespace,
            SelectorComponentSlot::DefaultNamespace(a) => SelectorComponent::DefaultNamespace(a),
            SelectorComponentSlot::ExplicitUniversalType => SelectorComponent::ExplicitUniversalType,
            SelectorComponentSlot::Id(a) => SelectorComponent::Id(a),
            SelectorComponentSlot::Class(a) => SelectorComponent::Class(a),
            SelectorComponentSlot::AttributeOther(n) => SelectorComponent::AttributeOther(n),
            SelectorComponentSlot::Negation(list) => SelectorComponent::Negation(list),
            SelectorComponentSlot::Root => SelectorComponent::Root,
            SelectorComponentSlot::Empty => SelectorComponent::Empty,
            SelectorComponentSlot::Scope => SelectorComponent::Scope,
            SelectorComponentSlot::Nth(d) => SelectorComponent::Nth(d),
            SelectorComponentSlot::PseudoClass(n) => SelectorComponent::PseudoClass(n),
            SelectorComponentSlot::Slotted(n) => SelectorComponent::Slotted(n),
            SelectorComponentSlot::Part(list) => SelectorComponent::Part(list),
            SelectorComponentSlot::Host(h) => SelectorComponent::Host(h),
            SelectorComponentSlot::Where(list) => SelectorComponent::Where(list),
            SelectorComponentSlot::Is(list) => SelectorComponent::Is(list),
            SelectorComponentSlot::Any { vendor_prefix, selectors } => SelectorComponent::Any { vendor_prefix, selectors },
            SelectorComponentSlot::Has(list) => SelectorComponent::Has(list),
            SelectorComponentSlot::PseudoElement(n) => SelectorComponent::PseudoElement(n),
            SelectorComponentSlot::Nesting => SelectorComponent::Nesting,
        }
    }

    /// Reads the component a payload describes, its overflow fields from the
    /// table.
    pub fn decode(payload: NodePayload, store: &ExtraDataStore) -> (r: SelectorComponent)
        requires
            store.wf(),
        ensures
            r == Self::spec_from_payload(payload, store.slots()),
    {
        Self::from_slot(decode_slot(payload), store)
    }

    /// Encodes a new component: the fields that do not fit inline are
    /// appended to the table, which keeps its earlier slots.
    pub fn encode_new(self, store: &mut ExtraDataStore) -> (r: NodePayload)
        requires
            old(store).wf(),
            old(store).slots().len() + 2 <= DENSE_CAPACITY,
        ensures
            final(store).wf(),
            Self::spec_from_payload(r, final(store).slots()) == self,
            final(store).slots().len() == old(store).slots().len() + extra_span(slot_of_payload(r)).1,
            final(store).slots().take(old(store).slots().len() as int) == old(store).slots(),
            extra_span(slot_of_payload(r)).1 > 0 ==> extra_span(slot_of_payload(r)).0 == old(store).slots().len(),
    {
        let r = self.into_payload(None, store);
        proof {
            assert(reused_extra(self, None) is None);
            assert(final(store).slots().take(old(store).slots().len() as int) =~= old(store).slots());
        }
        r
    }

    /// Re-encodes a component over the payload `current` of the node it
    /// replaces: when both are of the same variant and the table holds the
    /// overflow slots of `current`, those slots are rewritten in place;
    /// otherwise the fields that do not fit inline are appended. Slots
    /// outside those written keep their values.
    pub fn encode_existing(self, current: NodePayload, store: &mut ExtraDataStore) -> (r: NodePayload)
        requires
            old(store).wf(),
            old(store).slots().len() + 2 <= DENSE_CAPACITY,
        ensures
            final(store).wf(),
            Self::spec_from_payload(r, final(store).slots()) == self,
            extra_span(slot_of_payload(r)).1 == 0 ==> final(store).slots() == old(store).slots(),
            extra_span(slot_of_payload(r)).1 > 0 ==> extra_written(old(store).slots(), final(store).slots(),
                reused_extra(self, Some(slot_of_payload(current))), extra_span(slot_of_payload(r)).0 as u32,
                extra_span(slot_of_payload(r)).1),
    {
        let slot = decode_slot(current);
        self.into_payload(Some(slot), store)
    }

    /// Encodes the component over `current`, the slot it replaces, if any:
    /// the fields that do not fit inline are written over the overflow
    /// slots of `current` when it is of the same variant and the table
    /// holds them, and appended otherwise.
    #[verifier::rlimit(40)]
    fn into_payload(self, current: Option<SelectorComponentSlot>, store: &mut ExtraDataStore) -> (r: NodePayload)
        requires
            old(store).wf(),
            old(store).slots().len() + 2 <= DENSE_CAPACITY,
        ensures
            final(store).wf(),
            Self::spec_from_payload(r, final(store).slots()) == self,
            extra_span(slot_of_payload(r)).1 == 0 ==> final(store).slots() == old(store).slots(),
            extra_span(slot_of_payload(r)).1 > 0 ==> extra_written(old(store).slots(), final(store).slots(),
                reused_extra(self, current), extra_span(slot_of_payload(r)).0 as u32, extra_span(slot_of_payload(r)).1),
    {
        match self {
            SelectorComponent::Namespace { prefix, url } => {
                let reuse = match current {
                    Some(SelectorComponentSlot::Namespace { extra, .. }) => Some(extra),
                    _ => None,
                };
                let extra = write_atom_extra(url, reuse, store);
                encode_slot(SelectorComponentSlot::Namespace { prefix, extra })
            },
            SelectorComponent::LocalName { name, lower_name } => {
                let reuse = match current {
                    Some(SelectorComponentSlot::LocalName { extra, .. }) => Some(extra),
                    _ => None,
                };
                let extra = write_atom_extra(lower_name, reuse, store);
                encode_slot(SelectorComponentSlot::LocalName { name, extra })
            },
            SelectorComponent::AttributeInNoNamespaceExists { local_name, local_name_lower } => {
                let reuse = match current {
                    Some(SelectorComponentSlot::AttributeInNoNamespaceExists { extra, .. }) => Some(extra),
                    _ => None,
                };
                let extra = write_atom_extra(local_name_lower, reuse, store);
                encode_slot(SelectorComponentSlot::AttributeInNoNamespaceExists { local_name, extra })
            },
            SelectorComponent::AttributeInNoNamespace { local_name, operator, value, case_sensitivity, never_matches } => {
                let reuse = match current {
                    Some(SelectorComponentSlot::AttributeInNoNamespace { extra, .. }) => Some(extra),
                    _ => None,
                };
                let extra = write_attr_extra(value, operator, case_sensitivity, never_matches, reuse, store);
                encode_slot(SelectorComponentSlot::AttributeInNoNamespace { local_name, extra })
            },
            SelectorComponent::NthOf { data, selectors } => {
                let reuse = match current {
                    Some(SelectorComponentSlot::NthOf { extra, .. }) => Some(extra),
                    _ => None,
                };
                let extra = write_nth_extra(data, reuse, store);
                encode_slot(SelectorComponentSlot::NthOf { extra, selectors })
            },
            SelectorComponent::Combinator(c) => encode_slot(SelectorComponentSlot::Combinator(c)),
            SelectorComponent::ExplicitAnyNamespace => encode_slot(SelectorComponentSlot::ExplicitAnyNamespace),
            SelectorComponent::ExplicitNoNamespace => encode_slot(SelectorComponentSlot::ExplicitNoNamespace),
            SelectorComponent::DefaultNamespace(a) => encode_slot(SelectorComponentSlot::DefaultNamespace(a)),
            SelectorComponent::ExplicitUniversalType => encode_slot(SelectorComponentSlot::ExplicitUniversalType),
            SelectorComponent::Id(a) => encode_slot(SelectorComponentSlot::Id(a)),
            SelectorComponent::Class(a) => encode_slot(SelectorComponentSlot::Class(a)),
            SelectorComponent::AttributeOther(n) => encode_slot(SelectorComponentSlot::AttributeOther(n)),
            SelectorComponent::Negation(list) => encode_slot(SelectorComponentSlot::Negation(list)),
            SelectorComponent::Root => encode_slot(SelectorComponentSlot::Root),
            SelectorComponent::Empty => encode_slot(SelectorComponentSlot::Empty),
            SelectorComponent::Scope => encode_slot(SelectorComponentSlot::Scope),
            SelectorComponent::Nth(data) => encode_slot(SelectorComponentSlot::Nth(data)),
            SelectorComponent::PseudoClass(n) => encode_slot(SelectorComponentSlot::PseudoClass(n)),
            SelectorComponent::Slotted(n) => encode_slot(SelectorComponentSlot::Slotted(n)),
            SelectorComponent::Part(list) => encode_slot(SelectorComponentSlot::Part(list)),
            SelectorComponent::Host(host) => encode_slot(SelectorComponentSlot::Host(host)),
            SelectorComponent::Where(list) => encode_slot(SelectorComponentSlot::Where(list)),
            SelectorComponent::Is(list) => encode_slot(SelectorComponentSlot::Is(list)),
            SelectorComponent::Any { vendor_prefix, selectors } =>
                encode_slot(SelectorComponentSlot::Any { vendor_prefix, selectors }),
            SelectorComponent::Has(list) => encode_slot(SelectorComponentSlot::Has(list)),
            SelectorComponent::PseudoElement(n) => encode_slot(SelectorComponentSlot::PseudoElement(n)),
            SelectorComponent::Nesting => encode_slot(SelectorComponentSlot::Nesting),
        }
    }
}

} // verus!
