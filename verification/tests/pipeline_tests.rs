use tanuki::checkpoint::Checkpoint;
use tanuki::db::{FileMeta, KnowledgeNode};
use tanuki::pipeline::{needs_processing, query_matches, reduce_phase, resolve_target_dirs, resume_session, stale_paths, ReducePhase};

fn strings(v: &[&str]) -> Vec<String> {
    v.iter().map(|s| s.to_string()).collect()
}

fn node(title: &str, content: &str) -> KnowledgeNode {
    KnowledgeNode {
        id: title.into(),
        source_path: "doc.md".into(),
        file_hash: None,
        context_path: title.into(),
        title: title.into(),
        content: content.into(),
        summary: String::new(),
        metadata: String::new(),
    }
}

#[test]
fn target_directories() {
    assert_eq!(resolve_target_dirs(Some(strings(&["x"])), Some("y")), strings(&["x"]));
    assert_eq!(resolve_target_dirs(None, Some(" a , b ")), strings(&["a", "b"]));
    assert_eq!(
        resolve_target_dirs(None, None),
        strings(&[
            "../../Documents/InBox",
            "../../Documents/Archive/Devlog",
            "../../Documents/Archive/Media",
            "../../Documents/Archive/Specifications",
        ])
    );
}

#[test]
fn sessions_resume_only_on_matching_hash() {
    let mut cp = Checkpoint::new("old-session".to_string(), "h1".to_string());
    cp.strategist_notes = "notes".to_string();
    assert_eq!(resume_session(Some(&cp), "h1", "fresh".to_string()), ("old-session".to_string(), "notes".to_string()));
    assert_eq!(resume_session(Some(&cp), "h2", "fresh".to_string()), ("fresh".to_string(), String::new()));
    assert_eq!(resume_session(None, "h1", "fresh".to_string()), ("fresh".to_string(), String::new()));
}

#[test]
fn files_are_reprocessed_unless_unchanged() {
    assert!(!needs_processing(Some(5), 5));
    assert!(needs_processing(Some(4), 5));
    assert!(needs_processing(None, 5));
}

#[test]
fn stale_records() {
    let meta = vec![
        FileMeta { path: "a.md".into(), mtime: 1 },
        FileMeta { path: "b.md".into(), mtime: 2 },
        FileMeta { path: "c.md".into(), mtime: 3 },
    ];
    assert_eq!(stale_paths(&meta, &strings(&["b.md"])), strings(&["a.md", "c.md"]));
    assert!(stale_paths(&meta, &strings(&["a.md", "b.md", "c.md"])).is_empty());
}

#[test]
fn reduce_decision() {
    assert!(matches!(reduce_phase(false, false), ReducePhase::UpToDate));
    assert!(matches!(reduce_phase(true, true), ReducePhase::Skipped));
    assert!(matches!(reduce_phase(true, false), ReducePhase::Run));
}

#[test]
fn query_command_matches_every_word() {
    let nodes = vec![node("Rust 所有権", "借用"), node("Rust", "所有権 and borrowing"), node("Go", "所有権")];
    let r = query_matches(&nodes, "RUST  所有権");
    assert_eq!(r.iter().map(|n| n.content.as_str()).collect::<Vec<_>>(), vec!["借用", "所有権 and borrowing"]);
    assert_eq!(query_matches(&nodes, " ").len(), 3);
}
