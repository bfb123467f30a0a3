use rocketcss_ast::compilation::RadixCompilation;
use rocketcss_ast::effective_key::EffectiveContext;
use rocketcss_ast::ids::{DeclarationBlockId, DeclarationId, EffectiveKeyId, RuleId, RuleListId};
use rocketcss_ast::records::{
    CompilationCapacity, DeclarationBlockOwner, DeclarationOccurrence, MutationError,
};
use rocketcss_ast::source_order::label_between;
use rocketcss_ast::span::{dummy_sp, Span};

fn payloads(compilation: &RadixCompilation<u8, u8>, block: DeclarationBlockId) -> Vec<u8> {
    compilation
        .declarations_in_block(block)
        .unwrap()
        .iter()
        .map(|record| *record.payload())
        .collect()
}

fn rule_payloads(compilation: &RadixCompilation<u8, u8>, list: RuleListId) -> Vec<u8> {
    compilation
        .rules_in_list(list)
        .unwrap()
        .iter()
        .map(|(_, rule)| *rule.payload())
        .collect()
}

fn block_with(
    compilation: &mut RadixCompilation<u8, u8>,
    list: RuleListId,
    key: EffectiveKeyId,
    payload: u8,
    declarations: &[u8],
) -> (RuleId, DeclarationBlockId) {
    let rule = compilation.append_rule(list, payload).unwrap();
    let block = compilation
        .append_declaration_block(DeclarationBlockOwner::Rule(rule), key)
        .unwrap();
    for &value in declarations {
        compilation.append_declaration(block, value, false).unwrap();
    }
    (rule, block)
}

#[test]
fn equal_effective_keys_are_interned_once() {
    let mut compilation = RadixCompilation::<u8, u8>::new_in();
    let shared = EffectiveContext::default().effective_key();
    let first = compilation.append_effective_key(shared).unwrap();
    let again = compilation.append_effective_key(shared).unwrap();
    let isolated = compilation.append_effective_key(EffectiveContext::isolated(RuleId(0))).unwrap();
    assert_eq!(first, again);
    assert_ne!(first, isolated);
    assert_eq!(isolated, EffectiveKeyId(1));
    assert_eq!(compilation.effective_key(isolated), Some(&EffectiveContext::isolated(RuleId(0))));
    assert_eq!(compilation.effective_key(EffectiveKeyId(2)), None);
}

#[test]
fn unknown_identities_are_reported() {
    let mut compilation = RadixCompilation::<u8, u8>::new_in();
    assert_eq!(compilation.append_rule(RuleListId(7), 0), Err(MutationError::UnknownRuleList(RuleListId(7))));
    assert_eq!(compilation.create_child_list(RuleId(3)), Err(MutationError::UnknownRule(RuleId(3))));
    let root = compilation.stylesheet().root_rules();
    let rule = compilation.append_rule(root, 0).unwrap();
    assert_eq!(
        compilation.append_declaration_block(DeclarationBlockOwner::Rule(rule), EffectiveKeyId(0)),
        Err(MutationError::UnknownEffectiveKey(EffectiveKeyId(0)))
    );
    assert_eq!(
        compilation.append_declaration(DeclarationBlockId(0), 1, false),
        Err(MutationError::UnknownDeclarationBlock(DeclarationBlockId(0)))
    );
    assert_eq!(compilation.set_rule_span(RuleId(9), dummy_sp()), Err(MutationError::UnknownRule(RuleId(9))));
    assert_eq!(compilation.validate_ast(), Ok(()));
}

#[test]
fn capacity_hints_do_not_change_an_empty_context() {
    let capacity = CompilationCapacity {
        rules: 8,
        rule_lists: 2,
        declaration_blocks: 8,
        declarations: 32,
        selectors: 4,
        contexts: 4,
    };
    let compilation = RadixCompilation::<u8, u8>::with_capacity_in(capacity);
    assert_eq!(compilation.first_rule_in_source(), None);
    assert_eq!(compilation.rule_list_count(), 1);
    assert_eq!(compilation.declaration_block_count(), 0);
    assert!(compilation.license_comments().is_empty());
    assert_eq!(compilation.validate_ast(), Ok(()));
}

#[test]
fn license_comments_keep_their_order() {
    let mut compilation = RadixCompilation::<u8, u8>::new_in();
    compilation.push_license_comment("/*! a */".to_string());
    compilation.push_license_comment("/*! b */".to_string());
    assert_eq!(compilation.license_comments(), &vec!["/*! a */".to_string(), "/*! b */".to_string()]);
}

#[test]
fn rule_spans_are_stored_beside_rules() {
    let mut compilation = RadixCompilation::<u8, u8>::new_in();
    let root = compilation.stylesheet().root_rules();
    let rule = compilation.append_rule_with_span(root, 1, Span::new(3, 9)).unwrap();
    let plain = compilation.append_rule(root, 2).unwrap();
    assert_eq!(compilation.rule_span(rule), Some(Span::new(3, 9)));
    assert_eq!(compilation.rule_span(plain), Some(dummy_sp()));
    compilation.set_rule_span(plain, Span::new(10, 12)).unwrap();
    assert_eq!(compilation.rule_span(plain), Some(Span::new(10, 12)));
    assert_eq!(compilation.rule_span(RuleId(5)), None);
}

#[test]
fn nested_topology_walks_subtrees() {
    let mut compilation = RadixCompilation::<u8, u8>::new_in();
    let root = compilation.stylesheet().root_rules();
    let outer = compilation.append_rule(root, 1).unwrap();
    let children = compilation.create_child_list(outer).unwrap();
    let first_child = compilation.append_rule(children, 2).unwrap();
    let second_child = compilation.append_rule(children, 3).unwrap();
    let following = compilation.append_rule(root, 4).unwrap();

    assert_eq!(compilation.subtree_tail(outer), Some(second_child));
    assert_eq!(compilation.subtree_tail(following), Some(following));
    assert_eq!(compilation.next_after_subtree(outer), Some(following));
    assert_eq!(compilation.next_after_subtree(first_child), Some(second_child));
    assert_eq!(compilation.next_after_subtree(second_child), Some(following));
    assert_eq!(compilation.next_after_subtree(following), None);
    assert_eq!(compilation.rule_list(children).unwrap().parent(), Some(outer));
    assert_eq!(compilation.rule_list(children).unwrap().live_len(), 2);
    assert_eq!(compilation.rule(outer).unwrap().child_list(), Some(children));
    assert_eq!(rule_payloads(&compilation, children), [2, 3]);
    assert_eq!(compilation.validate_ast(), Ok(()));
}

#[test]
fn a_rule_is_inserted_after_its_neighbours_subtree() {
    let mut compilation = RadixCompilation::<u8, u8>::new_in();
    let root = compilation.stylesheet().root_rules();
    let outer = compilation.append_rule(root, 1).unwrap();
    let children = compilation.create_child_list(outer).unwrap();
    compilation.append_rule(children, 2).unwrap();
    let following = compilation.append_rule(root, 4).unwrap();

    let inserted = compilation.insert_rule_after(outer, 3).unwrap();
    assert_eq!(inserted, RuleId(3));
    assert_eq!(rule_payloads(&compilation, root), [1, 3, 4]);
    assert_eq!(
        compilation.rules_in_source_order().iter().map(|(_, rule)| *rule.payload()).collect::<Vec<_>>(),
        [1, 2, 3, 4]
    );
    assert_eq!(compilation.rule(inserted).unwrap().previous_sibling(), Some(outer));
    assert_eq!(compilation.rule(inserted).unwrap().next_sibling(), Some(following));
    assert_eq!(compilation.rule_span(inserted), Some(dummy_sp()));
    assert_eq!(compilation.insert_rule_after(RuleId(40), 0), Err(MutationError::UnknownRule(RuleId(40))));
    assert_eq!(compilation.validate_ast(), Ok(()));
}

#[test]
fn retired_rules_keep_their_slot_and_leave_their_list() {
    let mut compilation = RadixCompilation::<u8, u8>::new_in();
    let root = compilation.stylesheet().root_rules();
    let key = compilation.append_effective_key(EffectiveContext::default().effective_key()).unwrap();
    let (first, _) = block_with(&mut compilation, root, key, 1, &[10]);
    let (middle, middle_block) = block_with(&mut compilation, root, key, 2, &[20]);
    let (last, _) = block_with(&mut compilation, root, key, 3, &[30]);

    let retired = compilation.retire_rule(middle).unwrap();
    assert_eq!(retired.id, middle);
    assert_eq!(retired.list, root);
    assert_eq!(retired.previous, Some(first));
    assert_eq!(retired.next, Some(last));
    assert_eq!(retired.declaration_block, Some(middle_block));
    assert_eq!(rule_payloads(&compilation, root), [1, 3]);
    assert!(!compilation.rule(middle).unwrap().is_live());
    assert!(!compilation.declaration_block(middle_block).unwrap().is_live());
    assert_eq!(compilation.rule(first).unwrap().next_sibling(), Some(last));
    assert_eq!(compilation.rules_in_source_order().len(), 3);
    assert_eq!(compilation.retire_rule(middle), Err(MutationError::RetiredRule(middle)));
    assert_eq!(compilation.insert_rule_after(middle, 9), Err(MutationError::RetiredRule(middle)));
    assert_eq!(
        compilation.append_declaration(middle_block, 1, false),
        Err(MutationError::UnknownDeclarationBlock(middle_block))
    );
    assert_eq!(compilation.validate_ast(), Ok(()));
}

#[test]
fn a_rule_with_children_cannot_be_retired_or_merged() {
    let mut compilation = RadixCompilation::<u8, u8>::new_in();
    let root = compilation.stylesheet().root_rules();
    let key = compilation.append_effective_key(EffectiveContext::default().effective_key()).unwrap();
    let (parent, _) = block_with(&mut compilation, root, key, 1, &[1]);
    compilation.create_child_list(parent).unwrap();
    let (right, _) = block_with(&mut compilation, root, key, 2, &[2]);
    assert_eq!(compilation.retire_rule(parent), Err(MutationError::RuleHasChildren(parent)));
    assert_eq!(
        compilation.merge_adjacent_rule_declaration_blocks(parent, right),
        Err(MutationError::RuleHasChildren(parent))
    );
    assert_eq!(compilation.validate_ast(), Ok(()));
}

#[test]
fn merging_requires_equal_keys_and_adjacent_siblings() {
    let mut compilation = RadixCompilation::<u8, u8>::new_in();
    let root = compilation.stylesheet().root_rules();
    let shared = compilation.append_effective_key(EffectiveContext::default().effective_key()).unwrap();
    let other = compilation.append_effective_key(EffectiveContext::isolated(RuleId(0))).unwrap();
    let (a, _) = block_with(&mut compilation, root, shared, 1, &[1]);
    let (b, _) = block_with(&mut compilation, root, other, 2, &[2]);
    let (c, _) = block_with(&mut compilation, root, shared, 3, &[3]);
    assert_eq!(
        compilation.merge_adjacent_rule_declaration_blocks(a, b),
        Err(MutationError::InvalidRuleTopology(a))
    );
    assert_eq!(
        compilation.merge_adjacent_rule_declaration_blocks(a, c),
        Err(MutationError::InvalidRuleTopology(a))
    );
    assert_eq!(
        compilation.merge_adjacent_rule_declaration_blocks(RuleId(8), c),
        Err(MutationError::UnknownRule(RuleId(8)))
    );
    assert_eq!(compilation.validate_ast(), Ok(()));
}

#[test]
fn a_declaration_is_replaced_by_a_sequence_in_place() {
    let mut compilation = RadixCompilation::<u8, u8>::new_in();
    let root = compilation.stylesheet().root_rules();
    let key = compilation.append_effective_key(EffectiveContext::default().effective_key()).unwrap();
    let (_, block) = block_with(&mut compilation, root, key, 0, &[1, 2, 3]);
    let ids = compilation.declaration_ids_in_block(block).unwrap();

    let previous = compilation
        .replace_declaration_with_sequence(block, ids[1], vec![(20, false), (21, true), (22, false)])
        .unwrap();
    assert_eq!(previous, 2);
    assert_eq!(payloads(&compilation, block), [1, 20, 21, 22, 3]);
    assert_eq!(compilation.declaration_block(block).unwrap().declaration_count(), 5);
    let occurrences = compilation.declaration_occurrences_in_block(block).unwrap();
    assert!(occurrences[2].1.is_important());
    assert_eq!(occurrences[1].0.declaration(), ids[1]);
    assert_eq!(
        compilation.replace_declaration_with_sequence(block, ids[1], vec![]),
        Err(MutationError::InvalidDeclarationChain(block))
    );
    assert_eq!(
        compilation.replace_declaration_with_sequence(block, DeclarationId(99), vec![(0, false)]),
        Err(MutationError::UnknownDeclaration(DeclarationId(99)))
    );
    assert_eq!(compilation.validate_ast(), Ok(()));
}

#[test]
fn a_declaration_is_rewritten_from_its_own_payload() {
    let mut compilation = RadixCompilation::<u8, u8>::new_in();
    let root = compilation.stylesheet().root_rules();
    let key = compilation.append_effective_key(EffectiveContext::default().effective_key()).unwrap();
    let (_, block) = block_with(&mut compilation, root, key, 0, &[5, 6]);
    let ids = compilation.declaration_ids_in_block(block).unwrap();
    compilation
        .rewrite_declaration_with_sequence(block, ids[0], 1, 0, |payload, important| {
            vec![(payload + 1, important), (payload + 2, !important)]
        })
        .unwrap();
    assert_eq!(payloads(&compilation, block), [6, 7, 6]);
    assert!(compilation.declaration_occurrences_in_block(block).unwrap()[1].1.is_important());
    assert_eq!(
        compilation.rewrite_declaration_with_sequence(block, DeclarationId(42), 0, 0, |payload, important| {
            vec![(payload, important)]
        }),
        Err(MutationError::UnknownDeclaration(DeclarationId(42)))
    );
    assert_eq!(compilation.validate_ast(), Ok(()));
}

#[test]
fn payload_access_bumps_revisions() {
    let mut compilation = RadixCompilation::<u8, u8>::new_in();
    let root = compilation.stylesheet().root_rules();
    let key = compilation.append_effective_key(EffectiveContext::default().effective_key()).unwrap();
    let (rule, block) = block_with(&mut compilation, root, key, 7, &[1, 2]);
    let ids = compilation.declaration_ids_in_block(block).unwrap();
    let before = compilation.declaration_block(block).unwrap().revision();

    assert_eq!(compilation.replace_declaration(block, ids[0], 9), Ok(1));
    let (payload, important) = compilation.declaration_occurrence_mut(block, ids[1]).unwrap();
    assert!(!important);
    *payload = 8;
    assert_eq!(payloads(&compilation, block), [9, 8]);
    assert_eq!(compilation.declaration_block(block).unwrap().revision(), before + 2);
    assert_eq!(
        compilation.declaration_occurrence_mut(block, DeclarationId(5)).map(|(payload, _)| *payload),
        Err(MutationError::UnknownDeclaration(DeclarationId(5)))
    );

    let rule_revision = compilation.rule(rule).unwrap().revision();
    compilation.transform_rule_payload(rule, |payload: &u8| *payload * 2).unwrap();
    assert_eq!(*compilation.rule(rule).unwrap().payload(), 14);
    assert_eq!(compilation.rule(rule).unwrap().revision(), rule_revision + 1);
    assert_eq!(
        compilation.transform_rule_payload(RuleId(3), |payload: &u8| *payload),
        Err(MutationError::UnknownRule(RuleId(3)))
    );
    let count = compilation
        .for_each_declaration_mut(block, |_, payload: &u8, important| (*payload + 1, !important))
        .unwrap();
    assert_eq!(count, 2);
    assert_eq!(payloads(&compilation, block), [10, 9]);
    assert!(compilation.declaration_occurrences_in_block(block).unwrap().iter().all(|(_, record)| record.is_important()));
    assert_eq!(
        compilation.validated_declaration_mut(DeclarationOccurrence { block, declaration: ids[0] }).map(|(payload, _)| *payload),
        Ok(10)
    );
    assert_eq!(compilation.validate_ast(), Ok(()));
}

#[test]
fn declarations_are_found_by_position_and_in_source_order() {
    let mut compilation = RadixCompilation::<u8, u8>::new_in();
    let root = compilation.stylesheet().root_rules();
    let key = compilation.append_effective_key(EffectiveContext::default().effective_key()).unwrap();
    let (_, first) = block_with(&mut compilation, root, key, 0, &[1, 2]);
    let (_, second) = block_with(&mut compilation, root, key, 1, &[3]);
    assert_eq!(compilation.declaration_id_at_in_block(first, 1), Ok(DeclarationId(1)));
    assert_eq!(
        compilation.declaration_id_at_in_block(first, 2),
        Err(MutationError::DeclarationIndexOutOfBounds { block: first, index: 2 })
    );
    assert_eq!(compilation.declaration_id_at_in_block(second, 0), Ok(DeclarationId(2)));
    assert_eq!(
        compilation
            .declarations_in_source_order()
            .iter()
            .map(|(_, record)| *record.payload())
            .collect::<Vec<_>>(),
        [1, 2, 3]
    );
    assert_eq!(compilation.declaration_at_index(2).map(|record| *record.payload()), Some(3));
    assert!(
        compilation.declaration_block_source_order_id(first).unwrap()
            < compilation.declaration_block_source_order_id(second).unwrap()
    );
}

#[test]
fn source_labels_fall_strictly_between_their_neighbours() {
    assert_eq!(label_between(None, None).map(|label| label.is_some()), Ok(true));
    let between = label_between(Some(10), Some(30)).unwrap().unwrap();
    assert!(10 < between && between < 30);
    assert_eq!(label_between(Some(10), Some(11)), Ok(None));
    let after = label_between(Some(10), None).unwrap().unwrap();
    assert!(after > 10);
    let before = label_between(None, Some(10)).unwrap().unwrap();
    assert!(before < 10);
    assert_eq!(label_between(Some(30), Some(10)), Err(()));
}
