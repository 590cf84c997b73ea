use tanuki::flat_ast::{calculate_fnv1a, FlatAST, PriorityTier};

#[test]
fn test_push_and_alignment() {
    let mut ast = FlatAST::new();
    ast.push_node(100, 0, 0, false, 0, "hello");
    ast.push_node(200, 2, 5, false, 0, "world!!!");

    let nodes = ast.iter_nodes();
    assert_eq!(nodes.len(), 2);

    assert_eq!(nodes[0].0.node_id, 100);
    assert_eq!(nodes[0].0.node_type(), 0);
    assert_eq!(nodes[0].0.priority, 0);
    assert_eq!(nodes[0].1, "hello");
    assert_eq!(nodes[0].2, 0);

    assert_eq!(nodes[1].0.node_id, 200);
    assert_eq!(nodes[1].0.node_type(), 2);
    assert_eq!(nodes[1].0.priority, 5);
    assert_eq!(nodes[1].1, "world!!!");
    assert_eq!(nodes[1].2, 32);
}

#[test]
fn test_total_tokens() {
    let mut ast = FlatAST::new();
    ast.push_node(1, 0, 0, false, 0, "system");
    ast.push_node(2, 2, 5, false, 0, "ref");
    assert_eq!(ast.total_tokens(), 9);
}

#[test]
fn test_pruning() {
    let mut ast = FlatAST::new();
    ast.push_node(1, 0, 0, false, 0, "system_msg");
    ast.push_node(2, 2, 0, false, 0, "critical_reference_info");
    ast.push_node(3, 2, 10, false, 0, "low_priority_ref_info");
    ast.push_node(4, 2, 5, false, 0, "med_priority_reference_info");

    let initial_tokens = ast.total_tokens();
    assert_eq!(initial_tokens, 10 + 23 + 21 + 27);

    let pruned = ast.prune(60);
    assert_eq!(pruned, 60);
    assert_eq!(ast.total_tokens(), 60);

    let dsl = ast.render_dsl();
    assert!(dsl.contains("#S: system_msg"));
    assert!(dsl.contains("#R[2,0]: critical_reference_info"));
    assert!(!dsl.contains("low_priority_ref_info"));
    assert!(dsl.contains("med_priority_reference_info"));
}

#[test]
fn test_prune_same_priority() {
    let mut ast = FlatAST::new();
    ast.push_node(1, 0, 0, false, 0, "system_msg");
    ast.push_node(2, 2, 5, false, 0, "first_reference_info");
    ast.push_node(3, 2, 5, false, 0, "second_reference_info");

    assert_eq!(ast.total_tokens(), 51);

    let pruned = ast.prune(40);
    assert_eq!(pruned, 30);
    assert_eq!(ast.total_tokens(), 30);

    let dsl = ast.render_dsl();
    assert!(dsl.contains("first_reference_info"));
    assert!(!dsl.contains("second_reference_info"));
}

#[test]
fn test_prune_auto_expand() {
    let mut ast = FlatAST::new();
    ast.push_node(1, 0, 0, false, 0, "system_msg_protected");
    ast.push_node(2, 2, 5, false, 0, "dynamic_node_ref");

    assert_eq!(ast.total_tokens(), 36);

    let pruned = ast.prune(10);
    assert_eq!(pruned, 20);
    assert_eq!(ast.total_tokens(), 20);

    let dsl = ast.render_dsl();
    assert!(dsl.contains("system_msg_protected"));
    assert!(!dsl.contains("dynamic_node_ref"));
}

#[test]
fn test_render_dsl() {
    let mut ast = FlatAST::new();
    ast.push_node(10, 0, 0, false, 0, "SysPrompt");
    ast.push_node(20, 1, 0, false, 0, "Do this");
    ast.push_node(30, 2, 3, false, 0, "Data context");
    ast.push_node(40, 3, 5, false, 0, "Hello user");

    let dsl = ast.render_dsl();
    let expected = "#S: SysPrompt\n#I: Do this\n#R[30,3]: Data context\n#H[40]: Hello user\n";
    assert_eq!(dsl, expected);
}

#[test]
fn test_clear() {
    let mut ast = FlatAST::new();
    ast.push_node(1, 0, 0, false, 0, "first");
    assert_eq!(ast.total_tokens(), 5);
    assert!(!ast.is_empty());

    ast.clear();
    assert!(ast.is_empty());
    assert_eq!(ast.total_tokens(), 0);

    ast.push_node(2, 1, 0, false, 0, "second");
    assert_eq!(ast.total_tokens(), 6);
    let dsl = ast.render_dsl();
    assert_eq!(dsl, "#I: second\n");
}

#[test]
fn test_render_human_readable() {
    let mut ast = FlatAST::new();
    ast.push_node(1, 0, 0, false, 0, "System rule");
    ast.push_node(2, 1, 0, false, 0, "Run test");
    ast.push_node(3, 2, 3, false, 0, "Fact data");
    ast.push_node(4, 3, 0, false, 0, "History message");

    let doc = ast.render_human_readable();

    assert!(doc.contains("=== FLAT-AST HUMAN-READABLE CONTEXT DOCUMENT ==="));
    assert!(doc.contains("■ SYSTEM CONSTRAINT (システム制約)\nSystem rule"));
    assert!(doc.contains("■ ACTIVE GOAL (実行目標)\nRun test"));
    assert!(doc.contains(
        "■ REFERENCE KNOWLEDGE [ID: 0000000000000003, Priority: 3] (参照知識)\nFact data"
    ));
    assert!(doc.contains("■ CONVERSATION HISTORY [ID: 0000000000000004] (対話履歴)\nHistory message"));
}

#[test]
fn test_logical_delete_and_subnode() {
    let mut ast = FlatAST::new();
    ast.push_node(100, 2, 5, false, 2, "parent_payload");
    ast.push_node(101, 2, 5, true, 0, "sub_node_1");
    ast.push_node(102, 2, 5, true, 0, "sub_node_2");

    let dsl_before = ast.render_dsl();
    assert!(dsl_before.contains("#R[100,5]: parent_payload"));
    assert!(dsl_before.contains("  └─ #Sub[101]: sub_node_1"));
    assert!(dsl_before.contains("  └─ #Sub[102]: sub_node_2"));

    let success = ast.logical_delete_node(102);
    assert!(success);

    let dsl_after = ast.render_dsl();
    assert!(dsl_after.contains("#R[100,5]: parent_payload"));
    assert!(dsl_after.contains("  └─ #Sub[101]: sub_node_1"));
    assert!(!dsl_after.contains("sub_node_2"));

    let fail = ast.logical_delete_node(999);
    assert!(!fail);
}

#[test]
fn test_prune_two_stage_fallback() {
    let mut ast = FlatAST::new();
    ast.push_node(1, 0, 0, false, 3, "system_msg_protected");
    ast.push_node(2, 0, 3, true, 0, "sub_node_t3");
    ast.push_node(3, 0, 2, true, 0, "sub_node_t2_middle");
    ast.push_node(4, 0, 1, true, 0, "sub_node_t1_critical");
    ast.push_node(5, 2, 5, false, 0, "dummy_reference_node");

    assert_eq!(ast.total_tokens(), 89);

    let pruned_1 = ast.prune(80);
    assert_eq!(pruned_1, 69);
    let dsl_1 = ast.render_dsl();
    assert!(dsl_1.contains("sub_node_t3"));
    assert!(dsl_1.contains("sub_node_t2_middle"));
    assert!(dsl_1.contains("sub_node_t1_critical"));
    assert!(!dsl_1.contains("dummy_reference_node"));

    let mut ast_2 = ast.clone();
    let pruned_2 = ast_2.prune(65);
    assert_eq!(pruned_2, 58);
    let dsl_2 = ast_2.render_dsl();
    assert!(!dsl_2.contains("sub_node_t3"));
    assert!(dsl_2.contains("sub_node_t2_middle"));
    assert!(dsl_2.contains("sub_node_t1_critical"));
    assert!(!dsl_2.contains("dummy_reference_node"));

    let mut ast_3 = ast.clone();
    let pruned_3 = ast_3.prune(43);
    assert_eq!(pruned_3, 40);
    let dsl_3 = ast_3.render_dsl();
    assert!(!dsl_3.contains("sub_node_t3"));
    assert!(!dsl_3.contains("sub_node_t2_middle"));
    assert!(dsl_3.contains("sub_node_t1_critical"));
}

#[test]
fn fnv1a_known_values() {
    assert_eq!(calculate_fnv1a(""), 0xcbf29ce484222325);
    assert_eq!(calculate_fnv1a("a"), 0xaf63dc4c8601ec8c);
    assert_eq!(calculate_fnv1a("foobar"), 0x85944171f73967e8);
}

#[test]
fn human_readable_subnode_and_hex_ids() {
    let mut ast = FlatAST::new();
    ast.push_node(0xabcdef, 2, 7, false, 1, "parent");
    ast.push_node(255, 2, 3, true, 0, "child");
    let doc = ast.render_human_readable();
    assert_eq!(
        doc,
        "=== FLAT-AST HUMAN-READABLE CONTEXT DOCUMENT ===\n\n\
         ■ REFERENCE KNOWLEDGE [ID: 0000000000abcdef, Priority: 7] (参照知識)\nparent\n\n  \
         └─ ■ SUB-NODE [ID: 00000000000000ff]: child\n\n"
    );
}

#[test]
fn dsl_large_ids_and_utf8_payload_lengths() {
    let mut ast = FlatAST::new();
    ast.push_node(u64::MAX, 3, 0, false, 0, "日本語");
    assert_eq!(ast.total_tokens(), 9);
    assert_eq!(ast.render_dsl(), "#H[18446744073709551615]: 日本語\n");
    let nodes = ast.iter_nodes();
    assert_eq!(nodes[0].0.payload_len, 9);
    assert_eq!(nodes[0].1, "日本語");
}

#[test]
fn node_type_keeps_low_two_bits_and_flags() {
    let mut ast = FlatAST::new();
    ast.push_node(7, 6, 1, true, 0, "x");
    let nodes = ast.iter_nodes();
    let h = nodes[0].0;
    assert_eq!(h.node_type(), 2);
    assert!(h.is_active());
    assert!(h.is_subnode());
    assert_eq!(h.flags, 0b1011);
    assert_eq!(nodes[0].2, 0);
}

#[test]
fn prune_within_budget_changes_nothing() {
    let mut ast = FlatAST::new();
    ast.push_node(1, 2, 9, false, 0, "abc");
    assert_eq!(ast.prune(3), 3);
    assert_eq!(ast.render_dsl(), "#R[1,9]: abc\n");
}

#[test]
fn prune_is_idempotent_on_values() {
    let mut ast = FlatAST::new();
    ast.push_node(1, 0, 0, false, 0, "protected_system");
    ast.push_node(2, 2, 4, false, 0, "drop me");
    ast.push_node(3, 0, 3, true, 0, "tier three");
    let first = ast.prune(5);
    let dsl_first = ast.render_dsl();
    let second = ast.prune(5);
    assert_eq!(first, second);
    assert_eq!(first, 16);
    assert_eq!(dsl_first, ast.render_dsl());
    assert_eq!(dsl_first, "#S: protected_system\n");
}

#[test]
fn logical_delete_hits_first_match_only() {
    let mut ast = FlatAST::new();
    ast.push_node(5, 2, 1, false, 0, "one");
    ast.push_node(5, 2, 1, false, 0, "two");
    assert!(ast.logical_delete_node(5));
    assert_eq!(ast.render_dsl(), "#R[5,1]: two\n");
    assert_eq!(ast.total_tokens(), 3);
}

#[test]
fn priority_tier_values_and_order() {
    assert_eq!(PriorityTier::Tier1.value(), 1);
    assert_eq!(PriorityTier::Tier2.value(), 2);
    assert_eq!(PriorityTier::Tier3.value(), 3);
    assert!(PriorityTier::Tier1 < PriorityTier::Tier3);
}

#[test]
fn default_is_empty() {
    let ast = FlatAST::default();
    assert!(ast.is_empty());
    assert_eq!(ast.render_dsl(), "");
}

#[test]
fn edits_change_only_active_bits() {
    let mut ast = FlatAST::new();
    ast.push_node(1, 0, 0, false, 0, "system rule");
    ast.push_node(2, 2, 5, false, 1, "reference text here");
    ast.push_node(3, 2, 2, true, 0, "sub");
    ast.push_node(4, 3, 7, false, 0, "history");
    let before = ast.iter_nodes();
    assert!(ast.logical_delete_node(3));
    ast.prune(20);
    let after = ast.iter_nodes();
    assert_eq!(before.len(), after.len());
    let mut offset = 0usize;
    for ((h0, p0, o0), (h1, p1, o1)) in before.iter().zip(after.iter()) {
        assert_eq!(*o0, offset);
        assert_eq!(o0, o1);
        assert_eq!(offset % 16, 0);
        assert_eq!(p0, p1);
        assert_eq!((h0.node_id, h0.payload_len, h0.priority, h0.child_count), (h1.node_id, h1.payload_len, h1.priority, h1.child_count));
        assert_eq!((h0.node_type(), h0.is_subnode()), (h1.node_type(), h1.is_subnode()));
        assert!(!h1.is_active() || h0.is_active());
        offset += 16 + ((p0.len() + 15) / 16) * 16;
    }
    assert!(!after[2].0.is_active());
}

#[test]
fn tighter_budget_keeps_less() {
    let mut base = FlatAST::new();
    base.push_node(1, 0, 0, false, 0, "system");
    for i in 0..6u64 {
        base.push_node(10 + i, 2, (i % 3 + 1) as u8, false, 0, "reference payload");
    }
    let mut prev = 0u32;
    for limit in [0u32, 20, 40, 60, 80, 200] {
        let mut a = base.clone();
        let r = a.prune(limit);
        assert!(r >= prev);
        prev = r;
    }
}
