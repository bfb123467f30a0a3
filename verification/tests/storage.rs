use std::mem::size_of;

use rocketcss_ast::ids::DeclarationId;
use rocketcss_ast::span::Span;
use rocketcss_ast::storage::{
    ExtraData, ExtraDataCompact, ExtraDataStore, ExtraRange, NodeData, NodeId, NodeKind,
    NodePayload, NodeStorage,
};

#[test]
fn physical_slots_have_fixed_widths() {
    assert_eq!(size_of::<NodePayload>(), 16);
    assert_eq!(size_of::<ExtraData>(), 8);
}

#[test]
fn node_kind_packs_family_above_parameter() {
    let parameter = NodeKind::new(0x0007);
    let kind = NodeKind::parameterized(0x0011, parameter);
    assert_eq!(kind.discriminant(), 0x0011_0007);
    assert_eq!(NodeKind::new(2).discriminant(), 2);
    assert_eq!(NodeKind::mutating().discriminant(), u32::MAX);
}

#[test]
fn scalar_slots_round_trip() {
    assert_eq!(ExtraData::from_value(0xabu8).read_value::<u8>(), 0xab);
    assert_eq!(ExtraData::from_value(0xbeefu16).read_value::<u16>(), 0xbeef);
    assert_eq!(ExtraData::from_value(u32::MAX).read_value::<u32>(), u32::MAX);
    assert_eq!(ExtraData::from_value(-7i32).read_value::<i32>(), -7);
    assert_eq!(ExtraData::from_value(i32::MIN).read_value::<i32>(), i32::MIN);
    assert!(ExtraData::from_value(true).read_value::<bool>());
    assert!(!ExtraData::from_value(false).read_value::<bool>());
    assert_eq!(
        ExtraData::from_value(DeclarationId(9)).read_value::<DeclarationId>(),
        DeclarationId(9)
    );
    assert_eq!(
        ExtraData::from_value(Some(DeclarationId(0))).read_value::<Option<DeclarationId>>(),
        Some(DeclarationId(0))
    );
    assert_eq!(
        ExtraData::from_value(None::<DeclarationId>).read_value::<Option<DeclarationId>>(),
        None
    );
    assert_eq!(ExtraData::from_value(None::<DeclarationId>).to_word(), 0);
    assert_eq!(ExtraData::from_value(Some(DeclarationId(4))).to_word(), 5);
    assert_eq!(ExtraData::from_value(-1i32).to_word(), 0xffff_ffff);
}

#[test]
fn payload_holds_a_value_in_its_first_half() {
    let payload = NodePayload::from_value(0x1234_5678u32);
    assert_eq!(payload.read_value::<u32>(), 0x1234_5678);
    assert_eq!(payload.high().to_word(), 0);
    let halves = NodePayload::from_halves(ExtraData::from_word(1), ExtraData::from_word(2));
    assert_eq!(halves.low().to_word(), 1);
    assert_eq!(halves.high().to_word(), 2);
    assert_eq!(NodePayload::default(), NodePayload::from_halves(ExtraData::default(), ExtraData::default()));
    assert_eq!(u8::decode_extra(7u8.encode_extra()), 7);
}

#[test]
fn node_columns_stay_aligned_and_validate_kinds() {
    let inline = NodeKind::new(1);
    let overflow = NodeKind::new(2);
    let mut nodes = NodeData::new();
    let first = nodes.push_node(inline, NodePayload::from_value(10u32), Span::new(0, 1));
    let second = nodes.push_node(overflow, NodePayload::from_value(20u32), Span::new(1, 2));
    assert_eq!(first, NodeId(0));
    assert_eq!(second, NodeId(1));
    assert_eq!(nodes.len(), 2);
    assert!(nodes.validate(0, inline));
    assert!(!nodes.validate(0, overflow));
    assert!(!nodes.validate(2, inline));
    assert_eq!(nodes.payload(second, overflow).read_value::<u32>(), 20);
    assert_eq!(nodes.span(first, inline), Span::new(0, 1));
    nodes.set_span(first, inline, Span::new(5, 6));
    assert_eq!(nodes.span(first, inline), Span::new(5, 6));
    assert_eq!(nodes.id_at(1), second);
}

#[test]
fn a_node_under_mutation_is_unavailable_until_published() {
    let kind = NodeKind::new(3);
    let mut nodes = NodeData::new();
    let id = nodes.push_node(kind, NodePayload::from_value(1u32), Span::new(0, 0));
    let current = nodes.begin_mutation(id, kind);
    assert_eq!(current.read_value::<u32>(), 1);
    assert!(!nodes.validate(0, kind));
    assert!(!nodes.validate(0, NodeKind::mutating()));
    nodes.finish_mutation(id, kind, NodePayload::from_value(2u32));
    assert!(nodes.validate(0, kind));
    assert_eq!(nodes.payload(id, kind).read_value::<u32>(), 2);
    nodes.truncate(0);
    assert_eq!(nodes.len(), 0);
}

#[test]
fn extra_ranges_directly_address_shared_slots() {
    let mut extra = ExtraDataStore::new();
    let first = extra.push_slots(vec![ExtraData::from_word(1), ExtraData::from_word(2)]);
    let second = extra.push_slots(vec![ExtraData::from_word(3)]);
    assert_eq!(first.start_index(), 0);
    assert_eq!(first.len(), 2);
    assert_eq!(second.start_index(), 2);
    assert_eq!(extra.get(second, 0), Some(ExtraData::from_word(3)));
    assert_eq!(extra.get(second, 1), None);
    extra.set(first, 1, ExtraData::from_word(9));
    assert_eq!(extra.get_at(1), ExtraData::from_word(9));
    extra.set_at(0, ExtraData::from_word(8));
    assert_eq!(extra.get(first, 0), Some(ExtraData::from_word(8)));
    assert_eq!(extra.len(), 3);
    extra.truncate(1);
    assert_eq!(extra.len(), 1);
    assert_eq!(extra.get(first, 1), None);
    assert_eq!(ExtraRange::new(4, 4).len(), 0);
}

#[test]
fn lists_read_back_and_checkpoints_roll_back() {
    let kind = NodeKind::new(5);
    let mut storage = NodeStorage::new();
    storage.alloc_node(kind, NodePayload::from_value(1u8), Span::new(0, 1));
    let list = storage.alloc_vec(&vec![-1i32, 0, 7]);
    assert_eq!(storage.vec_len(list), 3);
    assert_eq!(storage.vec_get::<i32>(list, 0), Some(-1));
    assert_eq!(storage.vec_get::<i32>(list, 2), Some(7));
    assert_eq!(storage.vec_get::<i32>(list, 3), None);
    storage.vec_set(list, 1, 42i32);
    assert_eq!(storage.vec_get::<i32>(list, 1), Some(42));

    let checkpoint = storage.node_checkpoint();
    let later = storage.alloc_node(kind, NodePayload::from_value(2u8), Span::new(1, 2));
    storage.alloc_vec(&vec![true, false]);
    assert_eq!(later, NodeId(1));
    assert_eq!(storage.nodes().len(), 2);
    assert_eq!(storage.extra().len(), 5);
    storage.restore_node_checkpoint(checkpoint);
    assert_eq!(storage.nodes().len(), 1);
    assert_eq!(storage.extra().len(), 3);
    assert_eq!(storage.vec_get::<i32>(list, 1), Some(42));

    let previous = storage.replace_node_payload(NodeId(0), kind, NodePayload::from_value(9u8));
    assert_eq!(previous.read_value::<u8>(), 1);
    assert_eq!(storage.node_payload(NodeId(0), kind).read_value::<u8>(), 9);
    assert_eq!(storage.node_span(NodeId(0), kind), Span::new(0, 1));
}
