use rocketcss_ast::selector::{
    AttrSelectorOperator, Combinator, NthSelectorData, NthType, ParsedCaseSensitivity,
};
use rocketcss_ast::selector_component::{Atom, SelectorComponent, VendorPrefix};
use rocketcss_ast::storage::{ExtraData, ExtraDataStore, ExtraRange, NodeId};

fn round_trip(component: SelectorComponent, store: &mut ExtraDataStore) -> SelectorComponent {
    let payload = component.encode_new(store);
    SelectorComponent::decode(payload, store)
}

#[test]
fn inline_components_round_trip_without_overflow() {
    let mut store = ExtraDataStore::new();
    let components = vec![
        SelectorComponent::Combinator(Combinator::LaterSibling),
        SelectorComponent::Combinator(Combinator::Deep),
        SelectorComponent::ExplicitAnyNamespace,
        SelectorComponent::ExplicitNoNamespace,
        SelectorComponent::DefaultNamespace(Atom(7)),
        SelectorComponent::ExplicitUniversalType,
        SelectorComponent::Id(Atom(u32::MAX)),
        SelectorComponent::Class(Atom(3)),
        SelectorComponent::AttributeOther(NodeId(11)),
        SelectorComponent::Negation(ExtraRange::new(2, 5)),
        SelectorComponent::Root,
        SelectorComponent::Empty,
        SelectorComponent::Scope,
        SelectorComponent::Nth(NthSelectorData {
            kind: NthType::LastOfType,
            is_function: true,
            a: -2,
            b: i32::MIN,
        }),
        SelectorComponent::PseudoClass(NodeId(4)),
        SelectorComponent::Slotted(NodeId(5)),
        SelectorComponent::Part(ExtraRange::new(0, 0)),
        SelectorComponent::Host(None),
        SelectorComponent::Host(Some(NodeId(9))),
        SelectorComponent::Where(ExtraRange::new(1, 4)),
        SelectorComponent::Is(ExtraRange::new(6, 8)),
        SelectorComponent::Any {
            vendor_prefix: VendorPrefix(0b101),
            selectors: ExtraRange::new(3, 9),
        },
        SelectorComponent::Has(ExtraRange::new(10, 12)),
        SelectorComponent::PseudoElement(NodeId(2)),
        SelectorComponent::Nesting,
    ];
    for component in components {
        assert_eq!(round_trip(component, &mut store), component);
        assert_eq!(store.len(), 0);
    }
}

#[test]
fn overflow_fields_are_appended_for_new_components() {
    let mut store = ExtraDataStore::new();
    store.push_slots(vec![ExtraData::from_word(99)]);

    let namespace = SelectorComponent::Namespace { prefix: Atom(1), url: Atom(2) };
    assert_eq!(round_trip(namespace, &mut store), namespace);
    assert_eq!(store.len(), 2);
    assert_eq!(store.get_at(0).to_word(), 99);

    let attribute = SelectorComponent::AttributeInNoNamespace {
        local_name: Atom(4),
        operator: AttrSelectorOperator::Suffix,
        value: Atom(5),
        case_sensitivity: ParsedCaseSensitivity::AsciiCaseInsensitiveIfInHtmlElementInHtmlDocument,
        never_matches: true,
    };
    assert_eq!(round_trip(attribute, &mut store), attribute);
    assert_eq!(store.len(), 4);

    let nth_of = SelectorComponent::NthOf {
        data: NthSelectorData { kind: NthType::Col, is_function: false, a: i32::MAX, b: -7 },
        selectors: ExtraRange::new(0, 1),
    };
    assert_eq!(round_trip(nth_of, &mut store), nth_of);
    assert_eq!(store.len(), 6);

    let local = SelectorComponent::LocalName { name: Atom(8), lower_name: Atom(9) };
    assert_eq!(round_trip(local, &mut store), local);
    let exists = SelectorComponent::AttributeInNoNamespaceExists {
        local_name: Atom(10),
        local_name_lower: Atom(11),
    };
    assert_eq!(round_trip(exists, &mut store), exists);
    assert_eq!(store.len(), 8);
}

#[test]
fn reencoding_the_same_variant_rewrites_its_overflow_in_place() {
    let mut store = ExtraDataStore::new();
    let first = SelectorComponent::AttributeInNoNamespace {
        local_name: Atom(1),
        operator: AttrSelectorOperator::Equal,
        value: Atom(2),
        case_sensitivity: ParsedCaseSensitivity::CaseSensitive,
        never_matches: false,
    };
    let payload = first.encode_new(&mut store);
    assert_eq!(store.len(), 2);

    let second = SelectorComponent::AttributeInNoNamespace {
        local_name: Atom(3),
        operator: AttrSelectorOperator::DashMatch,
        value: Atom(4),
        case_sensitivity: ParsedCaseSensitivity::ExplicitCaseSensitive,
        never_matches: true,
    };
    let rewritten = second.encode_existing(payload, &mut store);
    assert_eq!(store.len(), 2);
    assert_eq!(SelectorComponent::decode(rewritten, &store), second);
}

#[test]
fn reencoding_another_variant_appends_overflow() {
    let mut store = ExtraDataStore::new();
    let namespace = SelectorComponent::Namespace { prefix: Atom(1), url: Atom(2) };
    let payload = namespace.encode_new(&mut store);
    assert_eq!(store.len(), 1);

    let local = SelectorComponent::LocalName { name: Atom(3), lower_name: Atom(4) };
    let rewritten = local.encode_existing(payload, &mut store);
    assert_eq!(store.len(), 2);
    assert_eq!(SelectorComponent::decode(rewritten, &store), local);
    assert_eq!(SelectorComponent::decode(payload, &store), namespace);

    let inline = SelectorComponent::Class(Atom(5));
    let rewritten = inline.encode_existing(rewritten, &mut store);
    assert_eq!(store.len(), 2);
    assert_eq!(SelectorComponent::decode(rewritten, &store), inline);
}

#[test]
fn simple_variants_stay_inline_and_overflow_variants_reuse_their_slots() {
    let mut store = ExtraDataStore::new();
    let first = Atom(0);
    let second = Atom(1);
    let mut payload = SelectorComponent::Class(first).encode_new(&mut store);
    assert_eq!(store.len(), 0);
    for value in [
        SelectorComponent::Id(second),
        SelectorComponent::Root,
        SelectorComponent::Host(None),
        SelectorComponent::Combinator(Combinator::Deep),
        SelectorComponent::DefaultNamespace(first),
        SelectorComponent::Class(second),
    ] {
        payload = value.encode_existing(payload, &mut store);
        assert_eq!(SelectorComponent::decode(payload, &store), value);
    }
    assert_eq!(store.len(), 0);
    for (value, slots) in [
        (SelectorComponent::Namespace { prefix: first, url: second }, 1),
        (SelectorComponent::LocalName { name: first, lower_name: second }, 1),
        (
            SelectorComponent::AttributeInNoNamespaceExists {
                local_name: first,
                local_name_lower: second,
            },
            1,
        ),
        (
            SelectorComponent::AttributeInNoNamespace {
                local_name: first,
                value: second,
                operator: AttrSelectorOperator::Suffix,
                case_sensitivity: ParsedCaseSensitivity::ExplicitCaseSensitive,
                never_matches: true,
            },
            2,
        ),
    ] {
        let before = store.len();
        payload = value.encode_existing(payload, &mut store);
        assert_eq!(store.len(), before + slots);
        for _ in 0..4 {
            assert_eq!(SelectorComponent::decode(payload, &store), value);
            payload = value.encode_existing(payload, &mut store);
        }
        assert_eq!(store.len(), before + slots);
    }
}

#[test]
fn nth_of_reencoding_reuses_its_overflow_slots() {
    let mut store = ExtraDataStore::new();
    let selectors = store.push_slots(vec![ExtraData::from_word(0)]);
    let before = store.len();
    let component = SelectorComponent::NthOf {
        data: NthSelectorData { kind: NthType::Child, is_function: true, a: 2, b: 1 },
        selectors,
    };
    let payload = component.encode_new(&mut store);
    assert_eq!(store.len(), before + 2);

    let changed = SelectorComponent::NthOf {
        data: NthSelectorData { kind: NthType::Child, is_function: true, a: 2, b: -1 },
        selectors,
    };
    let payload = changed.encode_existing(payload, &mut store);
    assert_eq!(store.len(), before + 2);
    assert_eq!(SelectorComponent::decode(payload, &store), changed);
}
