use tanuki::checkpoint::{generate_checkpoint, Checkpoint, KnowledgeType, SpecGoal, SummaryNode};
use tanuki::db::KnowledgeNode;

fn stored(id: &str, content: &str) -> KnowledgeNode {
    KnowledgeNode {
        id: id.to_string(),
        source_path: "src/test.rs".to_string(),
        file_hash: None,
        context_path: "root".to_string(),
        title: "Title".to_string(),
        content: content.to_string(),
        summary: "Summary".to_string(),
        metadata: "{}".to_string(),
    }
}

#[test]
fn test_to_flat_ast() {
    let kb = vec![stored("f4a45524", "Important algorithm content")];
    let mut checkpoint = Checkpoint::new("test-session".to_string(), "hash123".to_string());
    checkpoint.context_stack.active_constraints.push("Constraint 1".to_string());
    checkpoint.context_stack.spec_driven_goals.push(SpecGoal {
        id: "f4a45524_goal".to_string(),
        status: "PENDING".to_string(),
        priority: 3,
    });
    checkpoint.knowledge_graph_summary.nodes.push(SummaryNode {
        id: "f4a45524".to_string(),
        node_type: KnowledgeType::Node,
        symbol: "MySymbol".to_string(),
        link: "MyLink".to_string(),
    });

    let ast = checkpoint.to_flat_ast(&kb);
    let dsl = ast.render_dsl();
    assert!(dsl.contains("#S: Constraint 1"));
    assert!(dsl.contains("#I: f4a45524_goal"));
    assert!(dsl.contains("#R[4104410404,3]: Important algorithm content"));

    checkpoint.knowledge_graph_summary.hot_zones.push("f4a45524".to_string());
    let ast_hot = checkpoint.to_flat_ast(&kb);
    let dsl_hot = ast_hot.render_dsl();
    assert!(dsl_hot.contains("#R[4104410404,1]: Important algorithm content"));
}

#[test]
fn new_checkpoint_is_empty() {
    let cp = Checkpoint::new("s".to_string(), "h".to_string());
    assert_eq!(cp.session_id, "s");
    assert_eq!(cp.ast_root_hash, "h");
    assert_eq!(cp.context_stack.current_scope, "root");
    assert!(cp.context_stack.active_constraints.is_empty());
    assert!(cp.knowledge_graph_summary.nodes.is_empty());
    assert_eq!(cp.strategist_notes, "Initialized new session.");
    assert!(!cp.timestamp.is_empty());
}

#[test]
fn flat_ast_of_checkpoint_filters_and_prioritises() {
    let kb = vec![stored("zz-note", "note body"), stored("abc", "abc body")];
    let mut cp = Checkpoint::new("s".to_string(), "h".to_string());
    cp.context_stack.spec_driven_goals.push(SpecGoal { id: "done".into(), status: "DONE".into(), priority: 9 });
    cp.context_stack.spec_driven_goals.push(SpecGoal { id: "zz".into(), status: "PENDING".into(), priority: 900 });
    cp.knowledge_graph_summary.nodes.push(SummaryNode {
        id: "zz-note".into(),
        node_type: KnowledgeType::Devlog,
        symbol: String::new(),
        link: String::new(),
    });
    cp.knowledge_graph_summary.nodes.push(SummaryNode { id: "abc".into(), node_type: KnowledgeType::Link, symbol: String::new(), link: String::new() });
    cp.knowledge_graph_summary.nodes.push(SummaryNode { id: "missing".into(), node_type: KnowledgeType::Node, symbol: String::new(), link: String::new() });
    let dsl = cp.to_flat_ast(&kb).render_dsl();
    let zz_id = tanuki::flat_ast::calculate_fnv1a("zz-note");
    let zz_goal = tanuki::flat_ast::calculate_fnv1a("zz");
    assert_eq!(dsl, format!("#I: zz\n#R[{},255]: note body\n", zz_id));
    assert!(zz_goal != 0);
}

#[test]
fn generated_checkpoint_lists_every_node() {
    let nodes = vec![stored("n1", "a"), stored("n2", "b")];
    let dirs = vec!["docs".to_string()];
    let cp = generate_checkpoint(&nodes, &dirs, "sess", "abc".to_string());
    assert_eq!(cp.session_id, "sess");
    assert_eq!(cp.knowledge_graph_summary.nodes.len(), 2);
    assert_eq!(cp.knowledge_graph_summary.nodes[1].id, "n2");
    assert_eq!(cp.knowledge_graph_summary.nodes[0].symbol, "Title");
    assert_eq!(cp.knowledge_graph_summary.nodes[0].link, "file://src/test.rs");
    assert!(cp.knowledge_graph_summary.nodes[0].node_type == KnowledgeType::Node);
    assert_eq!(cp.knowledge_graph_summary.hot_zones, dirs);
    assert_eq!(cp.strategist_notes, "前回セッション完了: 2 個のノードをパッキング済み。ASTハッシュ: abc");
}

#[test]
fn timestamp_has_the_rfc3339_utc_shape() {
    let cp = Checkpoint::new("s".to_string(), "h".to_string());
    let re = regex::Regex::new(r"^([0-9]{4}|[+-][0-9]{4,})-[0-9]{2}-[0-9]{2}T[0-9]{2}:[0-9]{2}:[0-9]{2}(\.([0-9]{3}|[0-9]{6}|[0-9]{9}))?\+00:00$").unwrap();
    assert!(re.is_match(&cp.timestamp), "{}", cp.timestamp);
}
