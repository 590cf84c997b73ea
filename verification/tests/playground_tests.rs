use tanuki::flat_ast::calculate_fnv1a;
use tanuki::playground::{playground_prune, request_bytes_of, PlaygroundNodeInput, PlaygroundPruneRequest};

fn request(limit: u32) -> PlaygroundPruneRequest {
    PlaygroundPruneRequest {
        system_constraint: "S".to_string(),
        task_instruction: "I".to_string(),
        target_limit: limit,
        nodes: vec![
            PlaygroundNodeInput { title: "T1".to_string(), body: "B1".to_string(), tier: 3 },
            PlaygroundNodeInput { title: "Only title".to_string(), body: String::new(), tier: 1 },
        ],
    }
}

#[test]
fn nothing_is_pruned_within_the_budget() {
    let r = playground_prune(&request(1000));
    assert_eq!(r.initial_tokens, 1 + 1 + 27 + 5 + 11);
    assert_eq!(r.final_tokens, r.initial_tokens);
    assert_eq!(r.pruned_tokens, 0);
    assert_eq!(
        r.dsl_output,
        format!(
            "#S: S\n#I: I\n#R[{},0]: Playground Document Context\n  └─ #Sub[{}]: T1\nB1\n  └─ #Sub[{}]: Only title\n\n",
            calculate_fnv1a("PlaygroundDocument"),
            calculate_fnv1a("T1\nB1"),
            calculate_fnv1a("Only title\n")
        )
    );
    assert_eq!(r.nodes.len(), 2);
    assert_eq!(r.nodes[0].title, "T1");
    assert_eq!(r.nodes[0].body, "B1");
    assert_eq!(r.nodes[0].tier, 3);
    assert_eq!(r.nodes[0].tokens, 5);
    assert!(r.nodes[0].is_active);
    assert_eq!(r.nodes[1].title, "Only title");
    assert_eq!(r.nodes[1].body, "");
}

#[test]
fn tier3_sub_nodes_go_first() {
    let r = playground_prune(&request(40));
    assert_eq!(r.initial_tokens, 45);
    assert_eq!(r.final_tokens, 40);
    assert_eq!(r.pruned_tokens, 5);
    assert!(!r.nodes[0].is_active);
    assert!(r.nodes[1].is_active);
    assert!(!r.dsl_output.contains("T1"));
}

#[test]
fn protected_nodes_survive_any_budget() {
    let r = playground_prune(&request(0));
    assert_eq!(r.final_tokens, 1 + 1 + 27 + 11);
    assert!(r.dsl_output.starts_with("#S: S\n#I: I\n"));
    assert!(r.nodes[1].is_active);
}

#[test]
fn request_size_counts_every_payload_byte() {
    assert_eq!(request_bytes_of(&request(0)), 45);
    let mut r = request(0);
    r.system_constraint = "é".to_string();
    assert_eq!(request_bytes_of(&r), 46);
}
