use tanuki::db::{Cluster, KnowledgeNode, SpeculativeTransaction, UndoOp};

#[test]
fn rollback_undoes_the_latest_write_first() {
    let mut tx = SpeculativeTransaction::new();
    tx.record_node_insert("n1");
    tx.record_cluster_insert("c1");
    tx.record_link_insert("a", "b", "rel");
    assert_eq!(tx.pending(), 3);
    let plan = tx.rollback();
    assert_eq!(plan.len(), 3);
    assert!(matches!(&plan[0], UndoOp::DeleteLink(s, t, l) if s == "a" && t == "b" && l == "rel"));
    assert!(matches!(&plan[1], UndoOp::DeleteCluster(id) if id == "c1"));
    assert!(matches!(&plan[2], UndoOp::DeleteNode(id) if id == "n1"));
}

#[test]
fn commit_leaves_nothing_to_undo() {
    let mut tx = SpeculativeTransaction::new();
    tx.record_node_insert("n1");
    tx.commit();
    assert_eq!(tx.pending(), 0);
    assert!(tx.rollback().is_empty());
}

#[test]
fn empty_transaction_rolls_back_to_nothing() {
    let tx = SpeculativeTransaction::new();
    assert!(tx.rollback().is_empty());
}

#[test]
fn records_clone_field_by_field() {
    let n = KnowledgeNode {
        id: "id".into(),
        source_path: "a.md".into(),
        file_hash: Some("h".into()),
        context_path: "A > B".into(),
        title: "B".into(),
        content: "body".into(),
        summary: "s".into(),
        metadata: "{}".into(),
    };
    let m = n.clone();
    assert_eq!(m.id, "id");
    assert_eq!(m.file_hash.as_deref(), Some("h"));
    assert_eq!(m.context_path, "A > B");
    let c = Cluster { id: "c".into(), parent_id: "root".into(), title: "t".into(), summary: "s".into(), criteria: "k".into() };
    assert_eq!(c.clone().criteria, "k");
    let op = UndoOp::DeleteFileMeta("p".into());
    assert!(matches!(op.clone(), UndoOp::DeleteFileMeta(p) if p == "p"));
}
