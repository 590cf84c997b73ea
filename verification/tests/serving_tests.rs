use tanuki::db::KnowledgeNode;
use tanuki::flat_ast::calculate_fnv1a;
use tanuki::serving::dsl_prompt::{assemble_dsl_prompt, capture_subnode, deserialize_dsl_to_prompt, is_decimal_digit};
use tanuki::serving::status::{parse_gpu_vram_output, parse_vram_csv};
use tanuki::serving::{
    clean_query_to_keywords, contains_all_keywords, is_empty_or_title_only, keyword_search, plan_rag_answer,
    rag_blank_query, rag_keyword_candidates, search_request, semantic_hits, split_keywords, RagPlan, SearchParams,
};

fn node(path: &str, title: &str, content: &str, summary: &str) -> KnowledgeNode {
    KnowledgeNode {
        id: format!("id-{}", title),
        source_path: "doc.md".into(),
        file_hash: None,
        context_path: path.into(),
        title: title.into(),
        content: content.into(),
        summary: summary.into(),
        metadata: "{}".into(),
    }
}

fn strings(v: &[&str]) -> Vec<String> {
    v.iter().map(|s| s.to_string()).collect()
}

#[test]
fn title_only_detection() {
    assert!(is_empty_or_title_only("Title", "  \n "));
    assert!(is_empty_or_title_only("# Title", "Title\n"));
    assert!(is_empty_or_title_only("## My  Section", "#My Section"));
    assert!(is_empty_or_title_only("T", "AI Summary Placeholder"));
    assert!(!is_empty_or_title_only("T", "a real body"));
}

#[test]
fn query_keywords() {
    assert_eq!(clean_query_to_keywords("About Rust"), strings(&["rust"]));
    assert_eq!(clean_query_to_keywords("Rustの所有権について"), strings(&["rust", "の所有権について"]));
    assert_eq!(clean_query_to_keywords("GPT-4 について"), strings(&["gpt", "-", "4"]));
    assert_eq!(clean_query_to_keywords("ＡＢＣ１２３"), strings(&["abc123"]));
    assert_eq!(clean_query_to_keywords("   "), Vec::<String>::new());
    assert_eq!(split_keywords("abc日本xyz"), strings(&["abc", "日本", "xyz"]));
    assert_eq!(split_keywords("の は"), Vec::<String>::new());
}

#[test]
fn keyword_matching() {
    let kws = strings(&["rust", "所有権"]);
    assert!(contains_all_keywords("rust 入門", "所有権の話", &kws));
    assert!(!contains_all_keywords("rust 入門", "借用の話", &kws));
    assert!(contains_all_keywords("", "", &Vec::new()));
}

#[test]
fn keyword_search_skips_empty_bodies() {
    let nodes = vec![
        node("A", "Rust 所有権", "所有権の説明", ""),
        node("B", "Go", "   ", ""),
        node("C", "Python", "Rust との比較", ""),
    ];
    let hits = keyword_search(&nodes, &clean_query_to_keywords("RUST"));
    assert_eq!(hits.iter().map(|n| n.title.as_str()).collect::<Vec<_>>(), vec!["Rust 所有権", "Python"]);
    let all = keyword_search(&nodes, &Vec::new());
    assert_eq!(all.len(), 2);
}

#[test]
fn rag_candidates_skip_title_only_nodes_and_respect_the_limit() {
    let nodes = vec![
        node("A", "# Intro", "Intro", ""),
        node("B", "Rust", "Rust basics", ""),
        node("C", "More", "rust again", ""),
    ];
    let kws = strings(&["rust"]);
    let c = rag_keyword_candidates(&nodes, &kws, 3);
    assert_eq!(c.iter().map(|n| n.title.as_str()).collect::<Vec<_>>(), vec!["Rust", "More"]);
    let c = rag_keyword_candidates(&nodes, &kws, 1);
    assert_eq!(c.len(), 1);
    assert_eq!(c[0].title, "Rust");
}

#[test]
fn vector_hits_follow_the_id_order() {
    let nodes = vec![node("A", "a", "x", ""), node("B", "b", "", ""), node("C", "C", "C", "")];
    let ids = vec![calculate_fnv1a("C"), 999, calculate_fnv1a("B"), calculate_fnv1a("A")];
    let hits = semantic_hits(&nodes, &ids, false, 10);
    assert_eq!(hits.iter().map(|n| n.context_path.as_str()).collect::<Vec<_>>(), vec!["C", "A"]);
    let hits = semantic_hits(&nodes, &ids, true, 10);
    assert_eq!(hits.iter().map(|n| n.context_path.as_str()).collect::<Vec<_>>(), vec!["A"]);
    let hits = semantic_hits(&nodes, &ids, false, 1);
    assert_eq!(hits.len(), 1);
}

#[test]
fn rag_answers() {
    let blank = rag_blank_query("  ").unwrap();
    assert_eq!(blank.answer, "質問を入力してくださいわ！🐾");
    assert!(blank.references.is_empty());
    assert!(rag_blank_query("q").is_none());
    match plan_rag_answer("q", &Vec::new()) {
        RagPlan::Respond(r) => {
            assert_eq!(r.answer, "該当するナレッジが見つかりませんでしたわ。別のキーワードでお試しください。");
            assert!(r.references.is_empty());
        }
        _ => panic!("expected a direct answer"),
    }
    match plan_rag_answer("Q", &vec![node("A", "T1", "C1", "S1")]) {
        RagPlan::Generate { prompt, references } => {
            assert_eq!(references, strings(&["T1"]));
            assert_eq!(
                prompt,
                "あなたはご主人様に仕えるメイド風アシスタントの「たぬきちゃん」です。丁寧で愛嬌のあるお嬢様メイド口調（〜ですわ、〜ですの、等）で、提供された【参考資料】に記載されている事実に基づいて、質問「Q」に親身に回答してください。\n\n--- 参考資料 ---\n【参考資料 1】\nタイトル: T1\n内容:\nC1\n\n"
            );
        }
        _ => panic!("expected generation"),
    }
    let four: Vec<KnowledgeNode> = (1..=4).map(|i| node("A", &format!("T{}", i), "C", &format!("S{}", i))).collect();
    match plan_rag_answer("Q", &four) {
        RagPlan::Generate { prompt, references } => {
            assert_eq!(references.len(), 4);
            assert!(prompt.contains("【参考資料 4】\nタイトル: T4\n概要:\nS4\n\n"));
            assert!(!prompt.contains("内容:"));
        }
        _ => panic!("expected generation"),
    }
}

#[test]
fn dsl_is_turned_back_into_a_chat_prompt() {
    let dsl = "#S: Be precise\n#I: Summarize\n#R[30,3]: Doc title\n  └─ #Sub[31]: sub payload\nplain line\n";
    assert_eq!(
        deserialize_dsl_to_prompt(dsl),
        "【システム指示】\nBe precise\n\n【タスク指示】\n与えられた【参照ドキュメント】の内容のみに基づき、以下の命令に従って回答してください：\n- Summarize\n\n【参照ドキュメント】\n### Doc title\nsub payload\nplain line\n\n"
    );
    let two = "#R[1,2]: First\nbody one\n#R[2,2]: Second\n";
    assert_eq!(deserialize_dsl_to_prompt(two), "【参照ドキュメント】\n### First\nbody one\n\n### Second\n\n\n");
    assert_eq!(deserialize_dsl_to_prompt(""), "");
    assert_eq!(deserialize_dsl_to_prompt("stray text\n#H[4]: history"), "");
}

#[test]
fn dsl_assembly_uses_the_given_captures() {
    let lines = strings(&["#R[1,1]: Doc", "anything"]);
    let caps = vec![None, Some(" captured ".to_string())];
    assert_eq!(assemble_dsl_prompt(&lines, &caps), "【参照ドキュメント】\n### Doc\ncaptured\n\n");
}

#[test]
fn gpu_memory_report() {
    assert_eq!(parse_vram_csv("8192, 1024, 7168\n"), (Some(8192), Some(1024), Some(7168)));
    assert_eq!(parse_vram_csv("N/A, 1, 2"), (None, Some(1), Some(2)));
    assert_eq!(parse_vram_csv("1,2"), (None, None, None));
    assert_eq!(parse_vram_csv("1,2,3,4"), (None, None, None));
    assert_eq!(parse_gpu_vram_output(b"24576, 512, 24064\n"), (Some(24576), Some(512), Some(24064)));
    assert_eq!(parse_gpu_vram_output(b"1,2,\xff3"), (Some(1), Some(2), None));
}

#[test]
fn search_request_guards_blank_queries() {
    assert!(search_request(&SearchParams { q: None, limit: Some(3) }).is_none());
    assert!(search_request(&SearchParams { q: Some("  \t ".to_string()), limit: None }).is_none());
    assert_eq!(search_request(&SearchParams { q: Some(" rust ".to_string()), limit: None }), Some((" rust ".to_string(), 10)));
    assert_eq!(search_request(&SearchParams { q: Some("x".to_string()), limit: Some(4) }), Some(("x".to_string(), 4)));
}

#[test]
fn subnode_lines_match_the_pattern() {
    let re = regex::Regex::new(r"^\s*└─\s*#Sub\[\d+\]:\s*(.+)$").unwrap();
    let lines = [
        "  └─ #Sub[12]: payload text",
        "└─#Sub[7]:x",
        "\t└─\u{3000}#Sub[\u{663}\u{664}]:  spaced",
        "└─ #Sub[]: none",
        "└─ #Sub[1]:   ",
        "└─ #Sub[1]:",
        "└─ #Sub[1]: a\nb",
        "└─ #Sub[1]: \n  tail",
        "└─ #Sub[1]:  \n",
        "└─ #Sub[1a]: x",
        "└ #Sub[1]: x",
        "#R[1,2]: not a sub-node",
    ];
    for l in lines.iter() {
        let expected = re.captures(l).and_then(|c| c.get(1)).map(|m| m.as_str().to_string());
        assert_eq!(capture_subnode(l), expected, "line {:?}", l);
    }
    assert_eq!(capture_subnode("  └─ #Sub[12]: payload text").as_deref(), Some("payload text"));
    assert!(is_decimal_digit('7'));
    assert!(is_decimal_digit('\u{663}'));
    assert!(!is_decimal_digit('a'));
}
