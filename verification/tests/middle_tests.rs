use tanuki::db::KnowledgeNode;
use tanuki::middle::{cluster_prompt, group_by_context, metadata_prompt, parse_cluster_reply};

fn node(id: &str, path: &str, title: &str, content: &str) -> KnowledgeNode {
    KnowledgeNode {
        id: id.into(),
        source_path: "doc.md".into(),
        file_hash: None,
        context_path: path.into(),
        title: title.into(),
        content: content.into(),
        summary: "AI Summary Placeholder".into(),
        metadata: "{}".into(),
    }
}

#[test]
fn metadata_prompt_text() {
    assert_eq!(
        metadata_prompt("body"),
        "### Task: Extract metadata from markdown node.\n### Format: JSON {\"summary\": \"one sentence\", \"tags\": [\"tag1\", \"tag2\"]}\n\n### Content:\nbody\n\n### JSON Output:\n"
    );
}

#[test]
fn groups_hold_each_path_once() {
    let nodes = vec![node("1", "A", "a1", "x"), node("2", "B", "b1", "y"), node("3", "A", "a2", "z")];
    let groups = group_by_context(&nodes);
    assert_eq!(groups.len(), 2);
    let a = groups.iter().find(|g| g.0 == "A").unwrap();
    assert_eq!(a.1.iter().map(|n| n.id.as_str()).collect::<Vec<_>>(), vec!["1", "3"]);
    let b = groups.iter().find(|g| g.0 == "B").unwrap();
    assert_eq!(b.1.len(), 1);
    assert!(group_by_context(&Vec::new()).is_empty());
}

#[test]
fn cluster_prompt_lists_every_node() {
    let group = vec![node("1", "A", "t1", "c1"), node("2", "A", "t2", "c2")];
    assert_eq!(
        cluster_prompt("A", &group),
        "Before providing the final answer, please think step-by-step and output your logical process within <thinking> tags.\nThese are information snippets under the context path 'A'. Summarize them into a coherent 'Knowledge Cluster'. Provide a clear title and a summary that explains how these items relate to each other.\n\nNodes:\n- Title: t1\n  Content: c1\n\n- Title: t2\n  Content: c2"
    );
}

#[test]
fn cluster_replies() {
    let (t, s) = parse_cluster_reply("A", "<thinking>a\n</thinking>b</thinking>\n Title: Rust Basics \n  The summary. \n");
    assert_eq!(t, "Rust Basics");
    assert_eq!(s, "The summary.");
    let (t, s) = parse_cluster_reply("A > B", "just one line");
    assert_eq!(t, "Cluster: A > B");
    assert_eq!(s, "just one line");
    let (t, s) = parse_cluster_reply("P", "Title:Title: X\nrest");
    assert_eq!(t, "X");
    assert_eq!(s, "rest");
    let (t, s) = parse_cluster_reply("P", "<thinking>only</thinking>   ");
    assert_eq!(t, "Cluster: P");
    assert_eq!(s, "");
}
