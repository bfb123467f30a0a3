use rocketcss_ast::effective_key::{
    CascadeOrigin, CascadePhase, ContextFrameKind, EffectiveContext, HistorySegment,
    SelectorFrameKind, SelectorValueRecord,
};
use rocketcss_ast::ids::RuleId;
use rocketcss_ast::records::{DeclarationRange, StyleSheetCapacity};
use rocketcss_ast::reification::{
    FinalReificationRuleList, ReificationDeclarationId, ReificationRuleId, ReificationSelectorId,
    ReificationStats,
};
use rocketcss_ast::rules::{CounterStyleRule, CounterStyleRulePayload, LayerStatementRule};
use rocketcss_ast::selector::{
    AttrOperation, AttrSelector, AttrSelectorOperator, NamespaceConstraint, NthSelectorData,
    NthType, ParsedCaseSensitivity,
};
use rocketcss_ast::span::Span;
use rocketcss_ast::values::{AnimationName, Navigation};

#[test]
fn default_context_keys_the_shared_style_cascade() {
    let context = EffectiveContext::default();
    assert_eq!(context.style_rule(), None);
    assert_eq!(context.selector_path(), None);
    assert_eq!(context.context_path(), None);
    assert_eq!(context.layer(), None);
    let key = context.effective_key();
    assert_eq!(key.history_segment(), HistorySegment::StyleCascade);
    assert_eq!(key.origin(), CascadeOrigin::Author);
    assert_eq!(key.cascade_phase(), CascadePhase::AuthorNormalAndImportant);
}

#[test]
fn isolated_keys_are_distinct_per_rule_and_from_the_cascade() {
    let first = EffectiveContext::isolated(RuleId(1));
    let second = EffectiveContext::isolated(RuleId(2));
    assert_eq!(first.history_segment(), HistorySegment::Isolated(RuleId(1)));
    assert_ne!(first, second);
    assert_eq!(first, EffectiveContext::isolated(RuleId(1)));
    assert_ne!(first, EffectiveContext::default().effective_key());
    assert_ne!(first.code(), second.code());
}

#[test]
fn opaque_wrappers_are_the_occurrence_identified_ones() {
    assert!(ContextFrameKind::Scope.is_opaque());
    assert!(ContextFrameKind::MozDocument.is_opaque());
    assert!(ContextFrameKind::StartingStyle.is_opaque());
    assert!(!ContextFrameKind::Media.is_opaque());
    assert!(!ContextFrameKind::Supports.is_opaque());
    assert!(!ContextFrameKind::Container.is_opaque());
}

#[test]
fn selector_value_record_exposes_its_parts() {
    let record = SelectorValueRecord::new(vec![".a", ".b"], SelectorFrameKind::Nesting, 2u8, 77);
    assert_eq!(record.selectors(), &vec![".a", ".b"]);
    assert_eq!(record.kind(), SelectorFrameKind::Nesting);
    assert_eq!(record.vendor_prefix(), 2);
    assert_eq!(record.fingerprint(), 77);
}

#[test]
fn declaration_range_reports_start_and_length() {
    let range = DeclarationRange::new(3, 4);
    assert_eq!(range.start(), 3);
    assert_eq!(range.len(), 4);
    assert!(!range.is_empty());
    assert!(DeclarationRange::new(9, 0).is_empty());
    assert_eq!(StyleSheetCapacity::default().rules, 0);
}

#[test]
fn reification_ids_index_their_plan() {
    assert_eq!(ReificationRuleId(3).index(), 3);
    assert_eq!(ReificationDeclarationId(4).index(), 4);
    assert_eq!(ReificationSelectorId(5).index(), 5);
    let list = FinalReificationRuleList { parent: None, rules: vec![ReificationRuleId(0)] };
    assert_eq!(list.rules.len(), 1);
    let stats = ReificationStats::default();
    assert_eq!(stats.reification_passes, 0);
    assert_eq!(stats.radix_relabel_groups, 0);
}

#[test]
fn syntax_values_compare_structurally() {
    let rule = CounterStyleRule { span: Span::new(0, 10), name: "thumbs" };
    assert_eq!(rule, CounterStyleRule { span: Span::new(0, 10), name: "thumbs" });
    assert_eq!(CounterStyleRulePayload { name: "thumbs" }.name, rule.name);
    let layers = LayerStatementRule { span: Span::new(0, 3), names: vec![vec!["a", "b"]] };
    assert_eq!(layers.names[0].len(), 2);
    let attr = AttrSelector {
        namespace: Some(NamespaceConstraint::Any),
        local_name: "href",
        local_name_lower: "href",
        operation: AttrOperation::WithValue {
            operator: AttrSelectorOperator::Prefix,
            case_sensitivity: ParsedCaseSensitivity::default(),
            expected_value: "https",
        },
        never_matches: false,
    };
    assert_eq!(attr.operation, AttrOperation::WithValue {
        operator: AttrSelectorOperator::Prefix,
        case_sensitivity: ParsedCaseSensitivity::CaseSensitive,
        expected_value: "https",
    });
    let nth = NthSelectorData { kind: NthType::OfType, is_function: true, a: 2, b: -1 };
    assert_eq!(nth.kind, NthType::OfType);
    assert_ne!(AnimationName::NoneKeyword, AnimationName::Ident("spin"));
    assert_eq!(Navigation::Auto, Navigation::Auto);
}
