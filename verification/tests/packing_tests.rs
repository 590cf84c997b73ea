use tanuki::flat_ast::calculate_fnv1a;
use tanuki::memory::coarse_candidates;
use tanuki::packing::{calculate_ast_root_hash, layout_knowledge_tree, layout_knowledge_tree_checked, parent_id_of};

fn strings(v: &[&str]) -> Vec<String> {
    v.iter().map(|s| s.to_string()).collect()
}

#[test]
fn source_fingerprint() {
    assert_eq!(calculate_ast_root_hash(&Vec::new()), "e3b0c44298fc1c149afbf4c8996fb92427ae41e4649b934ca495991b7852b855");
    assert_eq!(
        calculate_ast_root_hash(&vec![("a".to_string(), b"b".to_vec())]),
        "fb8e20fc2e4c3f248c60c39bd652f3c1347298bb977b8b4d5903b85055620603"
    );
    assert_eq!(
        calculate_ast_root_hash(&vec![
            ("docs/a.md".to_string(), b"# A\n".to_vec()),
            ("docs/b.md".to_string(), b"B".to_vec())
        ]),
        "7c8a037b9427601a476cc7fef66fcb83d9a88551a16ae9f39330659cc83959e4"
    );
}

#[test]
fn parent_ids() {
    assert_eq!(parent_id_of("A > B > C"), calculate_fnv1a("A > B"));
    assert_eq!(parent_id_of("Top"), 0);
    assert_eq!(parent_id_of("A>B"), 0);
}

#[test]
fn tree_layout_is_preorder_by_ascending_id() {
    let paths = strings(&["A", "A > B", "A > C", "D"]);
    let t = layout_knowledge_tree(&paths);
    let a = calculate_fnv1a("A");
    let got: Vec<(u64, u64, u32, u32, usize)> =
        t.iter().map(|p| (p.node_id, p.parent_id, p.child_count, p.descendant_count, p.source)).collect();
    assert_eq!(
        got,
        vec![
            (calculate_fnv1a("D"), 0, 0, 0, 3),
            (a, 0, 2, 2, 0),
            (calculate_fnv1a("A > B"), a, 0, 0, 1),
            (calculate_fnv1a("A > C"), a, 0, 0, 2),
        ]
    );
}

#[test]
fn tree_layout_keeps_the_last_duplicate_and_orphans_become_roots() {
    let t = layout_knowledge_tree(&strings(&["X", "X"]));
    assert_eq!(t.len(), 1);
    assert_eq!(t[0].source, 1);
    let t = layout_knowledge_tree(&strings(&["Gone > Child"]));
    assert_eq!(t.len(), 1);
    assert_eq!(t[0].parent_id, calculate_fnv1a("Gone"));
    assert_eq!(t[0].descendant_count, 0);
    assert!(layout_knowledge_tree(&Vec::new()).is_empty());
}

#[test]
fn coarse_pass_skips_whole_subtrees() {
    assert_eq!(coarse_candidates(&vec![2, 0, 0, 1, 0], &vec![true, false, false, false, true]), vec![3, 4]);
    assert_eq!(coarse_candidates(&vec![2, 0, 0], &vec![false, false, false]), vec![0, 1, 2]);
    assert_eq!(coarse_candidates(&vec![5, 0], &vec![true, false]), Vec::<usize>::new());
    assert_eq!(coarse_candidates(&Vec::new(), &Vec::new()), Vec::<usize>::new());
}

#[test]
fn checked_layout_matches_and_can_exceed_the_path_count() {
    let paths = strings(&["A", "A > B", "A > B", "A > B > C", "A > B > C"]);
    let t = layout_knowledge_tree(&paths);
    let c = layout_knowledge_tree_checked(&paths).unwrap();
    assert_eq!(t.len(), c.len());
    assert_eq!(t.len(), 7);
    for (a, b) in t.iter().zip(c.iter()) {
        assert_eq!((a.node_id, a.parent_id, a.child_count, a.descendant_count, a.source), (b.node_id, b.parent_id, b.child_count, b.descendant_count, b.source));
    }
    assert_eq!(t[0].node_id, calculate_fnv1a("A"));
    assert_eq!(t[0].descendant_count, 6);
}
