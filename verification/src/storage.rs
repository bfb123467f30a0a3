//! Fixed-width node slots, shared overflow slots and the codecs between
//! small values and slots.
//!
//! A node is published as one column entry in each of three aligned
//! columns: its span, its kind and its payload. A node under mutation keeps
//! its slot but shows the reserved kind, so that no other access can observe
//! the half-written value.

use crate::ids::DeclarationId;
use crate::records::DENSE_CAPACITY;
use crate::span::Span;
use vstd::prelude::*;

verus! {

/// Compact, hand-assigned discriminator of one logical node type.
///
/// Zero is reserved so that a zeroed payload never describes a published
/// node; `u32::MAX` marks a slot that is temporarily under mutation.
#[derive(Clone, Copy, Debug, PartialEq, Eq, Structural)]
pub struct NodeKind(u32);

impl NodeKind {
    /// The raw discriminant.
    pub closed spec fn value(self) -> u32 {
        self.0
    }

    /// Whether this is the marker of a slot under mutation.
    pub open spec fn is_mutating(self) -> bool {
        self.value() == u32::MAX
    }

    /// The marker of a slot under mutation.
    pub fn mutating() -> (r: NodeKind)
        ensures
            r.value() == u32::MAX,
    {
        NodeKind(u32::MAX)
    }

    /// A published kind; zero and the mutation marker are reserved.
    pub fn new(discriminant: u32) -> (r: NodeKind)
        requires
            discriminant != 0,
            discriminant != u32::MAX,
        ensures
            r.value() == discriminant,
    {
        NodeKind(discriminant)
    }

    /// The kind of `family` applied to a 16-bit `parameter` kind: the family
    /// in the high half, the parameter in the low half.
    pub fn parameterized(family: u16, parameter: NodeKind) -> (r: NodeKind)
        requires
            family != 0,
            family != u16::MAX,
            parameter.value() <= u16::MAX,
        ensures
            r.value() == family * 0x1_0000 + parameter.value(),
            r.value() != 0,
            !r.is_mutating(),
    {
        let f: u32 = family as u32;
        let p: u32 = parameter.0;
        assert(((f << 16u32) | p) == f * 0x1_0000 + p) by (bit_vector)
            requires
                f <= 0xffff,
                p <= 0xffff,
        ;
        NodeKind((f << 16u32) | p)
    }

    /// The raw discriminant.
    pub fn discriminant(self) -> (r: u32)
        ensures
            r == self.value(),
    {
        self.0
    }
}

/// One opaque eight-byte overflow slot, held as a native word.
#[derive(Clone, Copy, Debug, PartialEq, Eq, Structural)]
pub struct ExtraData(u64);

impl ExtraData {
    /// The slot's contents.
    pub closed spec fn word(self) -> u64 {
        self.0
    }

    /// A slot holding `word`.
    pub fn from_word(word: u64) -> (r: ExtraData)
        ensures
            r.word() == word,
    {
        ExtraData(word)
    }

    /// The slot's contents.
    pub fn to_word(self) -> (r: u64)
        ensures
            r == self.word(),
    {
        self.0
    }

    /// A slot holding the encoding of `value`.
    pub fn from_value<T: ExtraDataCompact>(value: T) -> (r: ExtraData)
        ensures
            r.word() == value.spec_encode_extra(),
    {
        value.encode_extra()
    }

    /// The value a slot written by [`Self::from_value`] holds.
    pub fn read_value<T: ExtraDataCompact>(self) -> (r: T)
        ensures
            r == T::spec_decode_extra(self.word()),
    {
        T::decode_extra(self)
    }
}

impl Default for ExtraData {
    fn default() -> (r: ExtraData)
        ensures
            r.word() == 0,
    {
        ExtraData(0)
    }
}

/// One fixed-width sixteen-byte node payload: two overflow-sized halves.
#[derive(Clone, Copy, Debug, PartialEq, Eq, Structural)]
pub struct NodePayload {
    low: ExtraData,
    high: ExtraData,
}

impl NodePayload {
    /// The first half.
    pub closed spec fn spec_low(self) -> ExtraData {
        self.low
    }

    /// The second half.
    pub closed spec fn spec_high(self) -> ExtraData {
        self.high
    }

    /// A payload made of two halves.
    pub fn from_halves(low: ExtraData, high: ExtraData) -> (r: NodePayload)
        ensures
            r.spec_low() == low,
            r.spec_high() == high,
    {
        NodePayload { low, high }
    }

    /// The first half.
    pub fn low(self) -> (r: ExtraData)
        ensures
            r == self.spec_low(),
    {
        self.low
    }

    /// The second half.
    pub fn high(self) -> (r: ExtraData)
        ensures
            r == self.spec_high(),
    {
        self.high
    }

    /// A payload whose first half holds the encoding of `value`.
    pub fn from_value<T: ExtraDataCompact>(value: T) -> (r: NodePayload)
        ensures
            r.spec_low().word() == value.spec_encode_extra(),
            r.spec_high().word() == 0,
    {
        NodePayload { low: value.encode_extra(), high: ExtraData(0) }
    }

    /// The value a payload written by [`Self::from_value`] holds.
    pub fn read_value<T: ExtraDataCompact>(self) -> (r: T)
        ensures
            r == T::spec_decode_extra(self.spec_low().word()),
    {
        T::decode_extra(self.low)
    }
}

impl Default for NodePayload {
    fn default() -> (r: NodePayload)
        ensures
            r.spec_low().word() == 0,
            r.spec_high().word() == 0,
    {
        NodePayload { low: ExtraData(0), high: ExtraData(0) }
    }
}

/// Compact representation of one typed field or persistent-list element in
/// a single overflow slot. Decoding the encoding of a value gives it back.
pub trait ExtraDataCompact: Sized {
    /// The slot word that encodes `self`.
    spec fn spec_encode_extra(self) -> u64;

    /// The value a slot word decodes to.
    spec fn spec_decode_extra(word: u64) -> Self;

    /// Decoding an encoded value gives the value back.
    proof fn lemma_extra_round_trip(value: Self)
        ensures
            Self::spec_decode_extra(value.spec_encode_extra()) == value,
    ;

    /// Encodes `self` into one slot.
    fn encode_extra(self) -> (r: ExtraData)
        ensures
            r.word() == self.spec_encode_extra(),
    ;

    /// Decodes one slot.
    fn decode_extra(data: ExtraData) -> (r: Self)
        ensures
            r == Self::spec_decode_extra(data.word()),
    ;
}

impl ExtraDataCompact for u8 {
    open spec fn spec_encode_extra(self) -> u64 {
        self as u64
    }

    open spec fn spec_decode_extra(word: u64) -> u8 {
        word as u8
    }

    proof fn lemma_extra_round_trip(value: u8) {
    }

    fn encode_extra(self) -> (r: ExtraData) {
        ExtraData(self as u64)
    }

    fn decode_extra(data: ExtraData) -> (r: u8) {
        data.0 as u8
    }
}

impl ExtraDataCompact for u16 {
    open spec fn spec_encode_extra(self) -> u64 {
        self as u64
    }

    open spec fn spec_decode_extra(word: u64) -> u16 {
        word as u16
    }

    proof fn lemma_extra_round_trip(value: u16) {
    }

    fn encode_extra(self) -> (r: ExtraData) {
        ExtraData(self as u64)
    }

    fn decode_extra(data: ExtraData) -> (r: u16) {
        data.0 as u16
    }
}

impl ExtraDataCompact for u32 {
    open spec fn spec_encode_extra(self) -> u64 {
        self as u64
    }

    open spec fn spec_decode_extra(word: u64) -> u32 {
        word as u32
    }

    proof fn lemma_extra_round_trip(value: u32) {
    }

    fn encode_extra(self) -> (r: ExtraData) {
        ExtraData(self as u64)
    }

    fn decode_extra(data: ExtraData) -> (r: u32) {
        data.0 as u32
    }
}

impl ExtraDataCompact for i32 {
    open spec fn spec_encode_extra(self) -> u64 {
        (self as u32) as u64
    }

    open spec fn spec_decode_extra(word: u64) -> i32 {
        (word as u32) as i32
    }

    proof fn lemma_extra_round_trip(value: i32) {
        assert((((value as u32) as u64) as u32) as i32 == value) by (bit_vector);
    }

    fn encode_extra(self) -> (r: ExtraData) {
        ExtraData((self as u32) as u64)
    }

    fn decode_extra(data: ExtraData) -> (r: i32) {
        (data.0 as u32) as i32
    }
}

impl ExtraDataCompact for bool {
    open spec fn spec_encode_extra(self) -> u64 {
        if self { 1 } else { 0 }
    }

    open spec fn spec_decode_extra(word: u64) -> bool {
        word != 0
    }

    proof fn lemma_extra_round_trip(value: bool) {
    }

    fn encode_extra(self) -> (r: ExtraData) {
        if self { ExtraData(1) } else { ExtraData(0) }
    }

    fn decode_extra(data: ExtraData) -> (r: bool) {
        data.0 != 0
    }
}

impl ExtraDataCompact for DeclarationId {
    open spec fn spec_encode_extra(self) -> u64 {
        self.0 as u64
    }

    open spec fn spec_decode_extra(word: u64) -> DeclarationId {
        DeclarationId(word as u32)
    }

    proof fn lemma_extra_round_trip(value: DeclarationId) {
    }

    fn encode_extra(self) -> (r: ExtraData) {
        ExtraData(self.0 as u64)
    }

    fn decode_extra(data: ExtraData) -> (r: DeclarationId) {
        DeclarationId(data.0 as u32)
    }
}

impl ExtraDataCompact for Option<DeclarationId> {
    /// `None` is zero; `Some(id)` is the identity plus one.
    open spec fn spec_encode_extra(self) -> u64 {
        match self {
            Some(id) => (id.0 + 1) as u64,
            None => 0,
        }
    }

    open spec fn spec_decode_extra(word: u64) -> Option<DeclarationId> {
        if word == 0 {
            None
        } else {
            Some(DeclarationId((word - 1) as u32))
        }
    }

    proof fn lemma_extra_round_trip(value: Option<DeclarationId>) {
    }

    fn encode_extra(self) -> (r: ExtraData) {
        match self {
            Some(id) => ExtraData(id.0 as u64 + 1),
            None => ExtraData(0),
        }
    }

    fn decode_extra(data: ExtraData) -> (r: Option<DeclarationId>) {
        if data.0 == 0 {
            None
        } else {
            Some(DeclarationId((data.0 - 1) as u32))
        }
    }
}

/// Identity of one published node: its offset in the node columns.
#[derive(Clone, Copy, Debug, PartialEq, Eq, Structural, Hash)]
pub struct NodeId(pub u32);

/// How many slots of `kinds` are under mutation.
pub open spec fn mutating_count(kinds: Seq<NodeKind>) -> nat
    decreases kinds.len(),
{
    if kinds.len() == 0 {
        0
    } else {
        mutating_count(kinds.drop_last()) + if kinds.last().is_mutating() { 1nat } else { 0nat }
    }
}

/// Appending a kind adds one exactly when it is the mutation marker.
pub proof fn lemma_mutating_count_push(kinds: Seq<NodeKind>, kind: NodeKind)
    ensures
        mutating_count(kinds.push(kind)) == mutating_count(kinds) + if kind.is_mutating() { 1nat } else { 0nat },
{
    assert(kinds.push(kind).drop_last() =~= kinds);
}

/// Replacing one kind changes the count by the marker it removes and adds.
pub proof fn lemma_mutating_count_update(kinds: Seq<NodeKind>, i: int, kind: NodeKind)
    requires
        0 <= i < kinds.len(),
    ensures
        mutating_count(kinds.update(i, kind)) + if kinds[i].is_mutating() { 1nat } else { 0nat }
            == mutating_count(kinds) + if kind.is_mutating() { 1nat } else { 0nat },
    decreases kinds.len(),
{
    let updated = kinds.update(i, kind);
    if i == kinds.len() - 1 {
        assert(updated.drop_last() =~= kinds.drop_last());
    } else {
        lemma_mutating_count_update(kinds.drop_last(), i, kind);
        assert(updated.drop_last() =~= kinds.drop_last().update(i, kind));
    }
}

/// No slot is under mutation exactly when the count is zero; the count never
/// exceeds the number of slots.
pub proof fn lemma_mutating_count_zero(kinds: Seq<NodeKind>)
    ensures
        mutating_count(kinds) <= kinds.len(),
        mutating_count(kinds) == 0 <==> forall|i: int| 0 <= i < kinds.len() ==> !(#[trigger] kinds[i]).is_mutating(),
    decreases kinds.len(),
{
    if kinds.len() > 0 {
        lemma_mutating_count_zero(kinds.drop_last());
        if mutating_count(kinds) == 0 {
            assert forall|i: int| 0 <= i < kinds.len() implies !(#[trigger] kinds[i]).is_mutating() by {
                if i < kinds.len() - 1 {
                    assert(kinds[i] == kinds.drop_last()[i]);
                }
            }
        }
        if forall|i: int| 0 <= i < kinds.len() ==> !(#[trigger] kinds[i]).is_mutating() {
            assert forall|i: int| 0 <= i < kinds.drop_last().len() implies !(#[trigger] kinds.drop_last()[i]).is_mutating() by {
                assert(kinds.drop_last()[i] == kinds[i]);
            }
            assert(!kinds[kinds.len() - 1].is_mutating());
        }
    }
}

/// Aligned column storage of every flattened node.
pub struct NodeData {
    spans: Vec<Span>,
    kinds: Vec<NodeKind>,
    payloads: Vec<NodePayload>,
    active_mutations: usize,
}

impl NodeData {
    /// The span column.
    pub closed spec fn spans(&self) -> Seq<Span> {
        self.spans@
    }

    /// The kind column.
    pub closed spec fn kinds(&self) -> Seq<NodeKind> {
        self.kinds@
    }

    /// The payload column.
    pub closed spec fn payloads(&self) -> Seq<NodePayload> {
        self.payloads@
    }

    /// The number of nodes under mutation.
    pub closed spec fn active_mutations(&self) -> nat {
        self.active_mutations as nat
    }

    /// The number of published slots.
    pub open spec fn spec_len(&self) -> nat {
        self.kinds().len()
    }

    /// The columns are aligned, fit dense identities, and the mutation
    /// counter counts the slots that show the mutation marker.
    pub open spec fn wf(&self) -> bool {
        &&& self.spans().len() == self.kinds().len()
        &&& self.payloads().len() == self.kinds().len()
        &&& self.kinds().len() <= DENSE_CAPACITY
        &&& self.active_mutations() == mutating_count(self.kinds())
    }

    /// `index` names a published node of kind `expected` that is not under
    /// mutation.
    pub open spec fn accepts(&self, index: int, expected: NodeKind) -> bool {
        &&& 0 <= index < self.spec_len()
        &&& !self.kinds()[index].is_mutating()
        &&& self.kinds()[index] == expected
    }

    /// Empty columns.
    pub fn new() -> (r: NodeData)
        ensures
            r.wf(),
            r.spans() == Seq::<Span>::empty(),
            r.kinds() == Seq::<NodeKind>::empty(),
            r.payloads() == Seq::<NodePayload>::empty(),
    {
        NodeData { spans: Vec::new(), kinds: Vec::new(), payloads: Vec::new(), active_mutations: 0 }
    }

    /// Publishes one node under a fresh identity, the next offset.
    pub fn push_node(&mut self, kind: NodeKind, payload: NodePayload, span: Span) -> (r: NodeId)
        requires
            old(self).wf(),
            !kind.is_mutating(),
            old(self).spec_len() < DENSE_CAPACITY,
        ensures
            final(self).wf(),
            r.0 == old(self).spec_len(),
            final(self).spans() == old(self).spans().push(span),
            final(self).kinds() == old(self).kinds().push(kind),
            final(self).payloads() == old(self).payloads().push(payload),
            final(self).active_mutations() == old(self).active_mutations(),
    {
        proof {
            lemma_mutating_count_push(self.kinds@, kind);
        }
        let id = NodeId(self.kinds.len() as u32);
        self.spans.push(span);
        self.kinds.push(kind);
        self.payloads.push(payload);
        id
    }

    /// The number of published slots.
    pub fn len(&self) -> (r: usize)
        requires
            self.wf(),
        ensures
            r == self.spec_len(),
    {
        self.kinds.len()
    }

    /// Whether `index` names a published node of kind `expected` that is not
    /// under mutation.
    pub fn validate(&self, index: usize, expected: NodeKind) -> (r: bool)
        requires
            self.wf(),
        ensures
            r == self.accepts(index as int, expected),
    {
        if index >= self.kinds.len() {
            return false;
        }
        let actual = self.kinds[index];
        actual.0 != u32::MAX && actual.0 == expected.0
    }

    /// The identity of the node at `index`.
    pub fn id_at(&self, index: usize) -> (r: NodeId)
        requires
            self.wf(),
            index < self.spec_len(),
        ensures
            r.0 == index,
    {
        NodeId(index as u32)
    }

    /// The payload of a node of kind `expected`.
    pub fn payload(&self, id: NodeId, expected: NodeKind) -> (r: NodePayload)
        requires
            self.wf(),
            self.accepts(id.0 as int, expected),
        ensures
            r == self.payloads()[id.0 as int],
    {
        self.payloads[id.0 as usize]
    }

    /// The span of a node of kind `expected`.
    pub fn span(&self, id: NodeId, expected: NodeKind) -> (r: Span)
        requires
            self.wf(),
            self.accepts(id.0 as int, expected),
        ensures
            r == self.spans()[id.0 as int],
    {
        self.spans[id.0 as usize]
    }

    /// Replaces the span of a node of kind `expected`.
    pub fn set_span(&mut self, id: NodeId, expected: NodeKind, span: Span)
        requires
            old(self).wf(),
            old(self).accepts(id.0 as int, expected),
        ensures
            final(self).wf(),
            final(self).spans() == old(self).spans().update(id.0 as int, span),
            final(self).kinds() == old(self).kinds(),
            final(self).payloads() == old(self).payloads(),
            final(self).active_mutations() == old(self).active_mutations(),
    {
        self.spans.set(id.0 as usize, span);
    }

    /// Makes a node's slot unavailable and hands out its payload.
    pub fn begin_mutation(&mut self, id: NodeId, expected: NodeKind) -> (r: NodePayload)
        requires
            old(self).wf(),
            old(self).accepts(id.0 as int, expected),
        ensures
            final(self).wf(),
            r == old(self).payloads()[id.0 as int],
            final(self).kinds() == old(self).kinds().update(id.0 as int, NodeKind::spec_mutating()),
            final(self).kinds()[id.0 as int].is_mutating(),
            final(self).spans() == old(self).spans(),
            final(self).payloads() == old(self).payloads(),
            final(self).active_mutations() == old(self).active_mutations() + 1,
    {
        let i = id.0 as usize;
        proof {
            lemma_mutating_count_update(self.kinds@, i as int, NodeKind::spec_mutating());
            lemma_mutating_count_zero(self.kinds@.update(i as int, NodeKind::spec_mutating()));
        }
        self.kinds.set(i, NodeKind(u32::MAX));
        self.active_mutations = self.active_mutations + 1;
        self.payloads[i]
    }

    /// Publishes an updated payload under the node's unchanged identity.
    pub fn finish_mutation(&mut self, id: NodeId, kind: NodeKind, payload: NodePayload)
        requires
            old(self).wf(),
            !kind.is_mutating(),
            id.0 < old(self).spec_len(),
            old(self).kinds()[id.0 as int].is_mutating(),
        ensures
            final(self).wf(),
            final(self).kinds() == old(self).kinds().update(id.0 as int, kind),
            final(self).payloads() == old(self).payloads().update(id.0 as int, payload),
            final(self).spans() == old(self).spans(),
            final(self).active_mutations() + 1 == old(self).active_mutations(),
    {
        let i = id.0 as usize;
        proof {
            lemma_mutating_count_update(self.kinds@, i as int, kind);
        }
        self.payloads.set(i, payload);
        self.kinds.set(i, kind);
        self.active_mutations = self.active_mutations - 1;
    }

    /// Drops every slot from offset `len` on.
    pub fn truncate(&mut self, len: usize)
        requires
            old(self).wf(),
            old(self).active_mutations() == 0,
        ensures
            final(self).wf(),
            final(self).active_mutations() == 0,
            len <= old(self).spec_len() ==> {
                &&& final(self).spans() == old(self).spans().take(len as int)
                &&& final(self).kinds() == old(self).kinds().take(len as int)
                &&& final(self).payloads() == old(self).payloads().take(len as int)
            },
            len > old(self).spec_len() ==> {
                &&& final(self).spans() == old(self).spans()
                &&& final(self).kinds() == old(self).kinds()
                &&& final(self).payloads() == old(self).payloads()
            },
    {
        proof {
            lemma_mutating_count_zero(self.kinds@);
            if len <= self.kinds@.len() {
                lemma_mutating_count_zero(self.kinds@.take(len as int));
            }
        }
        self.spans.truncate(len);
        self.kinds.truncate(len);
        self.payloads.truncate(len);
    }
}

impl NodeKind {
    /// The marker of a slot under mutation.
    pub closed spec fn spec_mutating() -> NodeKind {
        NodeKind(u32::MAX)
    }
}

/// A contiguous run `start..end` of overflow slots: one persistent list.
#[derive(Clone, Copy, Debug, PartialEq, Eq)]
pub struct ExtraRange {
    start: u32,
    end: u32,
}

impl ExtraRange {
    /// Bounds are never reversed.
    #[verifier::type_invariant]
    closed spec fn bounds_ordered(self) -> bool {
        self.start <= self.end
    }

    /// The first slot offset.
    pub closed spec fn spec_start(self) -> u32 {
        self.start
    }

    /// One past the last slot offset.
    pub closed spec fn spec_end(self) -> u32 {
        self.end
    }

    /// The number of slots.
    pub open spec fn spec_len(self) -> int {
        self.spec_end() - self.spec_start()
    }

    /// The run `start..end`.
    pub fn new(start: u32, end: u32) -> (r: ExtraRange)
        requires
            start <= end,
        ensures
            r.spec_start() == start,
            r.spec_end() == end,
    {
        ExtraRange { start, end }
    }

    /// The run from `start` to `end`, or the empty run at `start` when
    /// `end` comes before it.
    pub closed spec fn spec_clamped(start: u32, end: u32) -> ExtraRange {
        ExtraRange { start, end: if end < start { start } else { end } }
    }

    /// The run from `start` to `end`, or the empty run at `start` when
    /// `end` comes before it.
    pub fn clamped(start: u32, end: u32) -> (r: ExtraRange)
        ensures
            r == Self::spec_clamped(start, end),
    {
        ExtraRange { start, end: if end < start { start } else { end } }
    }

    /// The two bounds; clamping them gives the run back.
    pub fn bounds(self) -> (r: (u32, u32))
        ensures
            r.0 == self.spec_start(),
            r.1 == self.spec_end(),
            r.0 <= r.1,
            Self::spec_clamped(r.0, r.1) == self,
    {
        proof {
            use_type_invariant(&self);
        }
        (self.start, self.end)
    }

    /// The first slot offset.
    pub fn start_index(self) -> (r: usize)
        ensures
            r == self.spec_start(),
    {
        self.start as usize
    }

    /// The number of slots.
    pub fn len(self) -> (r: usize)
        ensures
            r == self.spec_len(),
            self.spec_start() <= self.spec_end(),
    {
        proof {
            use_type_invariant(&self);
        }
        (self.end - self.start) as usize
    }
}

/// Shared append-only table of overflow fields and persistent lists.
pub struct ExtraDataStore {
    slots: Vec<ExtraData>,
}

impl ExtraDataStore {
    /// The slots.
    pub closed spec fn slots(&self) -> Seq<ExtraData> {
        self.slots@
    }

    /// Slot offsets fit dense identities.
    pub open spec fn wf(&self) -> bool {
        self.slots().len() <= DENSE_CAPACITY
    }

    /// An empty table.
    pub fn new() -> (r: ExtraDataStore)
        ensures
            r.wf(),
            r.slots() == Seq::<ExtraData>::empty(),
    {
        ExtraDataStore { slots: Vec::new() }
    }

    /// Appends consecutive slots and names them as one range.
    pub fn push_slots(&mut self, slots: Vec<ExtraData>) -> (r: ExtraRange)
        requires
            old(self).wf(),
            old(self).slots().len() + slots@.len() <= DENSE_CAPACITY,
        ensures
            final(self).wf(),
            final(self).slots() == old(self).slots() + slots@,
            r.spec_start() == old(self).slots().len(),
            r.spec_end() == final(self).slots().len(),
    {
        let start = self.slots.len();
        let mut i: usize = 0;
        while i < slots.len()
            invariant
                i <= slots@.len(),
                start == old(self).slots().len(),
                self.slots@ == old(self).slots() + slots@.take(i as int),
                old(self).slots().len() + slots@.len() <= DENSE_CAPACITY,
            decreases slots@.len() - i,
        {
            self.slots.push(slots[i]);
            i = i + 1;
            assert(slots@.take(i as int) =~= slots@.take(i - 1).push(slots@[i - 1]));
        }
        assert(slots@.take(i as int) =~= slots@);
        ExtraRange { start: start as u32, end: self.slots.len() as u32 }
    }

    /// The slot at `index` of `range`, if the range and the table hold it.
    pub fn get(&self, range: ExtraRange, index: usize) -> (r: Option<ExtraData>)
        requires
            self.wf(),
        ensures
            r == (if index < range.spec_len() && range.spec_start() + index < self.slots().len() {
                Some(self.slots()[range.spec_start() + index])
            } else {
                None
            }),
    {
        if index >= range.len() {
            return None;
        }
        let at = range.start_index() + index;
        if at < self.slots.len() {
            Some(self.slots[at])
        } else {
            None
        }
    }

    /// Replaces the slot at `index` of `range`.
    pub fn set(&mut self, range: ExtraRange, index: usize, value: ExtraData)
        requires
            old(self).wf(),
            index < range.spec_len(),
            range.spec_start() + index < old(self).slots().len(),
        ensures
            final(self).wf(),
            final(self).slots() == old(self).slots().update(range.spec_start() + index, value),
    {
        let at = range.start_index() + index;
        self.slots.set(at, value);
    }

    /// The slot at a table offset.
    pub fn get_at(&self, index: usize) -> (r: ExtraData)
        requires
            index < self.slots().len(),
        ensures
            r == self.slots()[index as int],
    {
        self.slots[index]
    }

    /// Replaces the slot at a table offset.
    pub fn set_at(&mut self, index: usize, value: ExtraData)
        requires
            old(self).wf(),
            index < old(self).slots().len(),
        ensures
            final(self).wf(),
            final(self).slots() == old(self).slots().update(index as int, value),
    {
        self.slots.set(index, value);
    }

    /// The number of slots.
    pub fn len(&self) -> (r: usize)
        ensures
            r == self.slots().len(),
    {
        self.slots.len()
    }

    /// Drops every slot from offset `len` on.
    pub fn truncate(&mut self, len: usize)
        requires
            old(self).wf(),
        ensures
            final(self).wf(),
            len <= old(self).slots().len() ==> final(self).slots() == old(self).slots().take(len as int),
            len > old(self).slots().len() ==> final(self).slots() == old(self).slots(),
    {
        self.slots.truncate(len);
    }
}

/// Tail positions of the node and overflow tables, captured by a
/// speculative parser state.
#[derive(Clone, Copy, Debug, PartialEq, Eq)]
pub struct NodeCheckpoint {
    compact_node_len: usize,
    extra_len: usize,
}

impl NodeCheckpoint {
    /// The captured node count.
    pub closed spec fn spec_node_len(self) -> nat {
        self.compact_node_len as nat
    }

    /// The captured overflow slot count.
    pub closed spec fn spec_extra_len(self) -> nat {
        self.extra_len as nat
    }
}

/// The node columns and the overflow table of one AST context.
pub struct NodeStorage {
    nodes: NodeData,
    extra: ExtraDataStore,
}

impl NodeStorage {
    /// The node columns.
    pub closed spec fn spec_nodes(&self) -> NodeData {
        self.nodes
    }

    /// The overflow table.
    pub closed spec fn spec_extra(&self) -> ExtraDataStore {
        self.extra
    }

    /// Both tables are well formed.
    pub open spec fn wf(&self) -> bool {
        self.spec_nodes().wf() && self.spec_extra().wf()
    }

    /// The list `range` decodes to the values `values`.
    pub open spec fn holds_list<T: ExtraDataCompact>(&self, range: ExtraRange, values: Seq<T>) -> bool {
        &&& range.spec_len() == values.len()
        &&& range.spec_end() <= self.spec_extra().slots().len()
        &&& forall|i: int| 0 <= i < values.len() ==>
            T::spec_decode_extra((#[trigger] self.spec_extra().slots()[range.spec_start() + i]).word()) == values[i]
    }

    /// Empty tables.
    pub fn new() -> (r: NodeStorage)
        ensures
            r.wf(),
            r.spec_nodes().spec_len() == 0,
            r.spec_extra().slots().len() == 0,
    {
        NodeStorage { nodes: NodeData::new(), extra: ExtraDataStore::new() }
    }

    /// The node columns.
    pub fn nodes(&self) -> (r: &NodeData)
        ensures
            *r == self.spec_nodes(),
    {
        &self.nodes
    }

    /// The overflow table.
    pub fn extra(&self) -> (r: &ExtraDataStore)
        ensures
            *r == self.spec_extra(),
    {
        &self.extra
    }

    /// Publishes one node.
    pub fn alloc_node(&mut self, kind: NodeKind, payload: NodePayload, span: Span) -> (r: NodeId)
        requires
            old(self).wf(),
            !kind.is_mutating(),
            old(self).spec_nodes().spec_len() < DENSE_CAPACITY,
        ensures
            final(self).wf(),
            r.0 == old(self).spec_nodes().spec_len(),
            final(self).spec_nodes().spans() == old(self).spec_nodes().spans().push(span),
            final(self).spec_nodes().kinds() == old(self).spec_nodes().kinds().push(kind),
            final(self).spec_nodes().payloads() == old(self).spec_nodes().payloads().push(payload),
            final(self).spec_nodes().active_mutations() == old(self).spec_nodes().active_mutations(),
            final(self).spec_extra() == old(self).spec_extra(),
    {
        self.nodes.push_node(kind, payload, span)
    }

    /// The payload of a node of kind `expected`.
    pub fn node_payload(&self, id: NodeId, expected: NodeKind) -> (r: NodePayload)
        requires
            self.wf(),
            self.spec_nodes().accepts(id.0 as int, expected),
        ensures
            r == self.spec_nodes().payloads()[id.0 as int],
    {
        self.nodes.payload(id, expected)
    }

    /// The span of a node of kind `expected`.
    pub fn node_span(&self, id: NodeId, expected: NodeKind) -> (r: Span)
        requires
            self.wf(),
            self.spec_nodes().accepts(id.0 as int, expected),
        ensures
            r == self.spec_nodes().spans()[id.0 as int],
    {
        self.nodes.span(id, expected)
    }

    /// Replaces the payload of a node of kind `expected` through one
    /// mutation transaction: the slot is unavailable in between, and its
    /// kind, span and identity are kept.
    pub fn replace_node_payload(&mut self, id: NodeId, expected: NodeKind, payload: NodePayload) -> (r: NodePayload)
        requires
            old(self).wf(),
            old(self).spec_nodes().accepts(id.0 as int, expected),
        ensures
            final(self).wf(),
            r == old(self).spec_nodes().payloads()[id.0 as int],
            final(self).spec_nodes().payloads() == old(self).spec_nodes().payloads().update(id.0 as int, payload),
            final(self).spec_nodes().kinds() == old(self).spec_nodes().kinds(),
            final(self).spec_nodes().spans() == old(self).spec_nodes().spans(),
            final(self).spec_nodes().active_mutations() == old(self).spec_nodes().active_mutations(),
            final(self).spec_extra() == old(self).spec_extra(),
    {
        let previous = self.nodes.begin_mutation(id, expected);
        self.nodes.finish_mutation(id, expected, payload);
        proof {
            assert(self.nodes.kinds() =~= old(self).spec_nodes().kinds());
        }
        previous
    }

    /// Allocates one persistent list holding `values` in order.
    pub fn alloc_vec<T: ExtraDataCompact + Copy>(&mut self, values: &Vec<T>) -> (r: ExtraRange)
        requires
            old(self).wf(),
            old(self).spec_extra().slots().len() + values@.len() <= DENSE_CAPACITY,
        ensures
            final(self).wf(),
            final(self).holds_list(r, values@),
            r.spec_start() == old(self).spec_extra().slots().len(),
            final(self).spec_extra().slots().take(old(self).spec_extra().slots().len() as int)
                == old(self).spec_extra().slots(),
            final(self).spec_nodes() == old(self).spec_nodes(),
    {
        let mut encoded: Vec<ExtraData> = Vec::new();
        let mut i: usize = 0;
        while i < values.len()
            invariant
                i <= values@.len(),
                encoded@.len() == i,
                forall|j: int| 0 <= j < i ==> (#[trigger] encoded@[j]).word() == values@[j].spec_encode_extra(),
            decreases values@.len() - i,
        {
            encoded.push(values[i].encode_extra());
            i = i + 1;
        }
        let ghost before = self.extra.slots();
        let range = self.extra.push_slots(encoded);
        proof {
            assert forall|j: int| 0 <= j < values@.len() implies
                T::spec_decode_extra((#[trigger] self.extra.slots()[range.spec_start() + j]).word()) == values@[j] by {
                assert(self.extra.slots()[range.spec_start() + j] == encoded@[j]);
                T::lemma_extra_round_trip(values@[j]);
            }
            assert(self.extra.slots().take(before.len() as int) =~= before);
        }
        range
    }

    /// The number of elements of a list.
    pub fn vec_len(&self, range: ExtraRange) -> (r: usize)
        ensures
            r == range.spec_len(),
    {
        range.len()
    }

    /// The element at `index` of a list, if it has one.
    pub fn vec_get<T: ExtraDataCompact>(&self, range: ExtraRange, index: usize) -> (r: Option<T>)
        requires
            self.wf(),
        ensures
            r == (if index < range.spec_len() && range.spec_start() + index < self.spec_extra().slots().len() {
                Some(T::spec_decode_extra(self.spec_extra().slots()[range.spec_start() + index].word()))
            } else {
                None
            }),
    {
        match self.extra.get(range, index) {
            Some(slot) => Some(T::decode_extra(slot)),
            None => None,
        }
    }

    /// Replaces the element at `index` of a list.
    pub fn vec_set<T: ExtraDataCompact>(&mut self, range: ExtraRange, index: usize, value: T)
        requires
            old(self).wf(),
            index < range.spec_len(),
            range.spec_start() + index < old(self).spec_extra().slots().len(),
        ensures
            final(self).wf(),
            final(self).spec_extra().slots()
                == old(self).spec_extra().slots().update(range.spec_start() + index, ExtraData::spec_from_word(value.spec_encode_extra())),
            final(self).spec_nodes() == old(self).spec_nodes(),
    {
        let slot = value.encode_extra();
        proof {
            ExtraData::lemma_from_word(slot);
        }
        self.extra.set(range, index, slot);
    }

    /// The current tail positions of both tables.
    pub fn node_checkpoint(&self) -> (r: NodeCheckpoint)
        requires
            self.wf(),
        ensures
            r.spec_node_len() == self.spec_nodes().spec_len(),
            r.spec_extra_len() == self.spec_extra().slots().len(),
    {
        NodeCheckpoint { compact_node_len: self.nodes.len(), extra_len: self.extra.len() }
    }

    /// Rolls both tables back to a checkpoint; nothing may be under mutation.
    pub fn restore_node_checkpoint(&mut self, checkpoint: NodeCheckpoint)
        requires
            old(self).wf(),
            old(self).spec_nodes().active_mutations() == 0,
            checkpoint.spec_node_len() <= old(self).spec_nodes().spec_len(),
            checkpoint.spec_extra_len() <= old(self).spec_extra().slots().len(),
        ensures
            final(self).wf(),
            final(self).spec_nodes().active_mutations() == 0,
            final(self).spec_nodes().spans() == old(self).spec_nodes().spans().take(checkpoint.spec_node_len() as int),
            final(self).spec_nodes().kinds() == old(self).spec_nodes().kinds().take(checkpoint.spec_node_len() as int),
            final(self).spec_nodes().payloads() == old(self).spec_nodes().payloads().take(checkpoint.spec_node_len() as int),
            final(self).spec_extra().slots() == old(self).spec_extra().slots().take(checkpoint.spec_extra_len() as int),
    {
        self.nodes.truncate(checkpoint.compact_node_len);
        self.extra.truncate(checkpoint.extra_len);
    }
}

impl ExtraData {
    /// The slot holding `word`.
    pub closed spec fn spec_from_word(word: u64) -> ExtraData {
        ExtraData(word)
    }

    /// A slot is the slot of its word.
    pub proof fn lemma_from_word(slot: ExtraData)
        ensures
            slot == Self::spec_from_word(slot.word()),
            Self::spec_from_word(slot.word()).word() == slot.word(),
    {
    }
}

/// Restoring a checkpoint undoes everything appended after it: when the
/// tables only grew since the checkpoint was taken, restoring it gives back
/// exactly the tables it was taken of.
pub proof fn lemma_restore_undoes_appends(before: NodeStorage, after: NodeStorage, checkpoint: NodeCheckpoint, restored: NodeStorage)
    requires
        checkpoint.spec_node_len() == before.spec_nodes().spec_len(),
        checkpoint.spec_extra_len() == before.spec_extra().slots().len(),
        before.spec_nodes().wf(),
        after.spec_nodes().wf(),
        after.spec_nodes().spans().take(before.spec_nodes().spec_len() as int) == before.spec_nodes().spans(),
        after.spec_nodes().kinds().take(before.spec_nodes().spec_len() as int) == before.spec_nodes().kinds(),
        after.spec_nodes().payloads().take(before.spec_nodes().spec_len() as int) == before.spec_nodes().payloads(),
        after.spec_extra().slots().take(before.spec_extra().slots().len() as int) == before.spec_extra().slots(),
        restored.spec_nodes().spans() == after.spec_nodes().spans().take(checkpoint.spec_node_len() as int),
        restored.spec_nodes().kinds() == after.spec_nodes().kinds().take(checkpoint.spec_node_len() as int),
        restored.spec_nodes().payloads() == after.spec_nodes().payloads().take(checkpoint.spec_node_len() as int),
        restored.spec_extra().slots() == after.spec_extra().slots().take(checkpoint.spec_extra_len() as int),
    ensures
        restored.spec_nodes().spans() == before.spec_nodes().spans(),
        restored.spec_nodes().kinds() == before.spec_nodes().kinds(),
        restored.spec_nodes().payloads() == before.spec_nodes().payloads(),
        restored.spec_extra().slots() == before.spec_extra().slots(),
{
}

/// A list reads back, element by element, the values it was written with.
pub proof fn lemma_list_reads_back<T: ExtraDataCompact>(storage: NodeStorage, range: ExtraRange, values: Seq<T>, index: int)
    requires
        storage.holds_list(range, values),
        0 <= index < values.len(),
    ensures
        index < range.spec_len(),
        range.spec_start() + index < storage.spec_extra().slots().len(),
        T::spec_decode_extra(storage.spec_extra().slots()[range.spec_start() + index].word()) == values[index],
{
}

} // verus!
