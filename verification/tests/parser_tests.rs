use tanuki::flat_ast::calculate_fnv1a;
use tanuki::frontend::ast::{Span, Token, TokenType};
use tanuki::frontend::tokenizer::Tokenizer;
use tanuki::frontend::{has_top_header, parse_markdown_checked, parse_markdown_file, MdNodeKind};

fn lines(v: &[&str]) -> Vec<String> {
    v.iter().map(|s| s.to_string()).collect()
}

#[test]
fn headers_paragraphs_and_code_blocks() {
    let nodes = parse_markdown_file(&lines(&["# Title", "", "Hello world", "```rust", "code", "```"]), "doc.md".to_string());
    assert_eq!(nodes.len(), 3);
    assert!(matches!(nodes[0].kind, MdNodeKind::Header(1)));
    assert_eq!(nodes[0].content, "# Title\n");
    assert_eq!(nodes[0].title, "Title");
    assert_eq!(nodes[0].id, "unknown-1-0");
    assert_eq!(nodes[0].context_path, "Title");
    assert_eq!(nodes[0].parent_id, None);
    assert_eq!(nodes[0].source_path, "doc.md");
    assert!(matches!(nodes[1].kind, MdNodeKind::Paragraph));
    assert_eq!(nodes[1].content, "\nHello world\n```");
    assert_eq!(nodes[1].id, "unknown-p-1");
    assert_eq!(nodes[1].context_path, "Title");
    assert_eq!(nodes[1].parent_id, Some(calculate_fnv1a("Title")));
    assert!(matches!(nodes[2].kind, MdNodeKind::CodeBlock));
    assert_eq!(nodes[2].content, "rust\ncode\n```\n");
    assert_eq!(nodes[2].id, "unknown-code-2");
}

#[test]
fn hash_marker_names_the_nodes() {
    let nodes = parse_markdown_file(
        &lines(&["<!-- Tanuki-Hash: abcdef0123456789 -->", "# Doc", "## Sub", "text"]),
        "doc.md".to_string(),
    );
    assert_eq!(nodes.len(), 4);
    assert!(matches!(nodes[0].kind, MdNodeKind::Paragraph));
    assert_eq!(nodes[0].content, "<!-- Tanuki-Hash: abcdef0123456789 -->\n#");
    assert_eq!(nodes[0].file_hash.as_deref(), Some("abcdef0123456789"));
    assert!(matches!(nodes[1].kind, MdNodeKind::Header(1)));
    assert_eq!(nodes[1].content, " Doc\n");
    assert_eq!(nodes[1].title, "Doc");
    assert_eq!(nodes[1].id, "abcdef0123456789-1-1");
    assert_eq!(nodes[1].context_path, "Doc (abcdef01)");
    assert!(matches!(nodes[2].kind, MdNodeKind::Header(2)));
    assert_eq!(nodes[2].content, "## Sub\n");
    assert_eq!(nodes[2].context_path, "Doc (abcdef01) > Sub");
    assert_eq!(nodes[2].parent_id, Some(calculate_fnv1a("Doc (abcdef01)")));
    assert_eq!(nodes[2].id, "abcdef0123456789-2-2");
    assert!(matches!(nodes[3].kind, MdNodeKind::Paragraph));
    assert_eq!(nodes[3].content, "text\n");
    assert_eq!(nodes[3].id, "abcdef0123456789-p-3");
}

#[test]
fn empty_document_has_no_nodes() {
    assert!(parse_markdown_file(&Vec::new(), "e.md".to_string()).is_empty());
}

#[test]
fn tokens_cover_the_text() {
    let mut t = Tokenizer::from_lines(&lines(&["## Head", "body"]));
    let first = t.get_token();
    assert!(first.token_type == TokenType::H2);
    assert_eq!(first.content, "##");
    let mut texts = String::new();
    texts.push_str(&first.content);
    loop {
        let tok = t.get_token();
        if tok.token_type == TokenType::TEof {
            break;
        }
        texts.push_str(&tok.content);
    }
    assert_eq!(texts, "## Head\nbody\n");
    let d = Token::default();
    assert!(d.token_type == TokenType::TError);
    let s = Span::new(1, 2, 3, 4);
    assert_eq!((s.start, s.end, s.line, s.column), (1, 2, 3, 4));
}

#[test]
fn same_level_header_closes_the_section() {
    let nodes = parse_markdown_file(&lines(&["# A", "## B", "# C", "text"]), "s.md".to_string());
    assert_eq!(nodes.len(), 4);
    assert_eq!(nodes[1].context_path, "A > B");
    assert_eq!(nodes[1].parent_id, Some(calculate_fnv1a("A")));
    assert!(matches!(nodes[2].kind, MdNodeKind::Header(1)));
    assert_eq!(nodes[2].context_path, "C");
    assert_eq!(nodes[2].parent_id, None);
    assert_eq!(nodes[3].context_path, "C");
    assert_eq!(nodes[3].parent_id, Some(calculate_fnv1a("C")));
    let joined: String = nodes.iter().map(|n| n.content.as_str()).collect();
    assert_eq!(joined, "# A\n## B\n# C\ntext\n");
}

#[test]
fn unshortenable_hash_without_top_header() {
    let nodes = parse_markdown_file(
        &lines(&["<!-- Tanuki-Hash: abcdefg\u{e9}123 -->", "## Sub", "body"]),
        "h.md".to_string(),
    );
    assert_eq!(nodes.len(), 3);
    assert_eq!(nodes[0].file_hash.as_deref(), Some("abcdefg\u{e9}123"));
    assert!(matches!(nodes[1].kind, MdNodeKind::Header(2)));
    assert_eq!(nodes[1].context_path, "Sub");
    assert_eq!(nodes[1].id, "abcdefg\u{e9}123-2-1");
}

#[test]
fn unterminated_code_block_emits_no_node() {
    let nodes = parse_markdown_file(&lines(&["```", "code"]), "c.md".to_string());
    assert!(nodes.iter().all(|n| !matches!(n.kind, MdNodeKind::CodeBlock)));
}

#[test]
fn top_header_is_found_by_its_token() {
    assert!(has_top_header(&lines(&["intro", "# Top"])));
    assert!(has_top_header(&lines(&["```", "# inside fence", "```"])));
    assert!(!has_top_header(&lines(&["## Sub", "#tag", "####### seven"])));
}

#[test]
fn checked_parse_refuses_only_what_cannot_be_shown() {
    let bad = "<!-- Tanuki-Hash: abcdefg\u{e9}123 -->";
    assert!(parse_markdown_checked(&lines(&[bad, "# Top"]), "b.md".to_string()).is_none());
    let ok = parse_markdown_checked(&lines(&[bad, "## Sub"]), "b.md".to_string()).unwrap();
    assert_eq!(ok.len(), 2);
    let good = parse_markdown_checked(&lines(&["<!-- Tanuki-Hash: 0123456789 -->", "# Top"]), "g.md".to_string()).unwrap();
    assert_eq!(good[1].context_path, "Top (01234567)");
}
