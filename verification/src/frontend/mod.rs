//! The markdown front end: tokenizer and parser producing knowledge nodes.
pub mod ast;
pub mod grammar;
pub mod parser;
pub mod tokenizer;

use vstd::prelude::*;
use vstd::utf8::{decode_utf8, encode_utf8, is_char_boundary};
use crate::flat_ast::fnv1a_str;
use crate::text::{decimal, join, trim, strip_leading, find_from};
use self::grammar::{Emit, advance_tok, cursor_measure, lemma_document_h1, lemma_stream_step, parse_events, stream_has_h1};
use self::parser::{MarkdownParser, hash_fits, hash_marker_of};
use self::tokenizer::{lines_text, Tokenizer};

verus! {

/// A section, paragraph or code block of a markdown document.
#[derive(Debug, Clone)]
pub struct MdNode {
    pub id: String,
    pub source_path: String,
    pub file_hash: Option<String>,
    /// The titles of the enclosing sections joined with " > ".
    pub context_path: String,
    /// FNV-1a hash of the parent section's context path.
    pub parent_id: Option<u64>,
    pub title: String,
    pub content: String,
    pub kind: MdNodeKind,
}

/// What a node is: a header of the given level, a paragraph or a code block.
#[derive(Debug, Clone, Copy, PartialEq, Eq, Structural)]
pub enum MdNodeKind {
    Header(u8),
    Paragraph,
    CodeBlock,
}

/// The view of an optional string.
pub open spec fn opt_view(o: Option<String>) -> Option<Seq<char>> {
    match o {
        Some(s) => Some(s@),
        None => None,
    }
}

/// All node contents, concatenated in order.
pub open spec fn contents(nodes: Seq<MdNode>) -> Seq<char>
    decreases nodes.len(),
{
    if nodes.len() == 0 {
        Seq::empty()
    } else {
        contents(nodes.drop_last()) + nodes.last().content@
    }
}

/// The label that starts node ids: the file hash, or "unknown".
pub open spec fn hash_label(file_hash: Option<Seq<char>>) -> Seq<char> {
    match file_hash {
        Some(h) => h,
        None => "unknown"@,
    }
}

/// The first 8 bytes of a hash when it is longer than that.
pub open spec fn short_hash(h: Seq<char>) -> Seq<char> {
    if encode_utf8(h).len() > 8 {
        decode_utf8(encode_utf8(h).take(8))
    } else {
        h
    }
}

/// A hash whose first 8 bytes can be cut off without splitting a character.
pub open spec fn short_hash_ok(h: Seq<char>) -> bool {
    encode_utf8(h).len() <= 8 || is_char_boundary(encode_utf8(h), 8)
}

/// The title under which a header appears in context paths: level-1 headers
/// of a hashed file carry the short hash in parentheses.
pub open spec fn display_title(title: Seq<char>, level: u8, file_hash: Option<Seq<char>>) -> Seq<char> {
    match file_hash {
        Some(h) => if level == 1 {
            title + " ("@ + short_hash(h) + ")"@
        } else {
            title
        },
        None => title,
    }
}

/// A context path: section titles joined with " > ".
pub open spec fn section_path(stack: Seq<Seq<char>>) -> Seq<char> {
    join(stack, " > "@)
}

/// The parent id of a node inside the sections `stack`: none at top level,
/// else the FNV-1a hash of the stack's context path.
pub open spec fn parent_of(stack: Seq<Seq<char>>) -> Option<u64> {
    if stack.len() == 0 {
        None
    } else {
        Some(fnv1a_str(section_path(stack)))
    }
}

/// What holds of the node at position `index`, emitted inside the sections
/// `stack` (for a header, `stack` ends with its own display title).
pub open spec fn node_ok(
    n: MdNode,
    index: int,
    stack: Seq<Seq<char>>,
    source_path: Seq<char>,
    file_hash: Option<Seq<char>>,
) -> bool {
    let label = hash_label(file_hash);
    &&& n.source_path@ == source_path
    &&& opt_view(n.file_hash) == file_hash
    &&& n.context_path@ == section_path(stack)
    &&& match n.kind {
        MdNodeKind::Header(level) => {
            &&& 1 <= level <= 6
            &&& 1 <= stack.len() <= level
            &&& n.parent_id == parent_of(stack.drop_last())
            &&& n.title@ == trim(strip_leading(n.content@, '#'))
            &&& stack.last() == display_title(n.title@, level, file_hash)
            &&& n.id@ == label + "-"@ + decimal(level as nat) + "-"@ + decimal(index as nat)
        },
        MdNodeKind::Paragraph => {
            &&& n.parent_id == parent_of(stack)
            &&& n.title@ == "Paragraph"@
            &&& n.id@ == label + "-p-"@ + decimal(index as nat)
        },
        MdNodeKind::CodeBlock => {
            &&& n.parent_id == parent_of(stack)
            &&& n.title@ == "Code Block"@
            &&& n.id@ == label + "-code-"@ + decimal(index as nat)
        },
    }
}

/// The text of a document read as lines: each line followed by a newline.
pub open spec fn document_text(lines: Seq<String>) -> Seq<char> {
    lines_text(lines.map_values(|l: String| l@))
}

/// Where the text of emission `i` starts: where the previous one ended, or 0.
pub open spec fn start_of(ev: Seq<Emit>, i: int) -> int {
    if i == 0 {
        0
    } else {
        ev[i - 1].1
    }
}

/// Where the text of the last emission ended (0 before any).
pub open spec fn last_end(ev: Seq<Emit>) -> int {
    start_of(ev, ev.len() as int)
}

/// The text of emission `i`: from the end of the previous one to its own end.
pub open spec fn content_of(cs: Seq<char>, ev: Seq<Emit>, i: int) -> Seq<char> {
    cs.subrange(start_of(ev, i), ev[i].1)
}

/// Emission ends are ordered and lie within `0..=pos`.
pub open spec fn events_fit(ev: Seq<Emit>, pos: int) -> bool {
    forall|i: int| 0 <= i < ev.len() ==> 0 <= start_of(ev, i) <= (#[trigger] ev[i]).1 <= pos
}

/// The title of a header, from its text: without the leading `#` run and
/// surrounding whitespace.
pub open spec fn header_title(content: Seq<char>) -> Seq<char> {
    trim(strip_leading(content, '#'))
}

/// The section stack after a header of `level` shown as `t`: the sections of
/// that level or deeper are closed, then the header's own is opened.
pub open spec fn enter_section(stack: Seq<Seq<char>>, level: u8, t: Seq<char>) -> Seq<Seq<char>> {
    (if stack.len() >= level {
        stack.take(level - 1)
    } else {
        stack
    }).push(t)
}

/// The stack of open sections after the emissions `ev`.
pub open spec fn stack_of(cs: Seq<char>, ev: Seq<Emit>, file_hash: Option<Seq<char>>) -> Seq<Seq<char>>
    decreases ev.len(),
{
    if ev.len() == 0 {
        Seq::empty()
    } else {
        let prev = stack_of(cs, ev.drop_last(), file_hash);
        match ev.last().0 {
            MdNodeKind::Header(level) => enter_section(
                prev,
                level,
                display_title(header_title(content_of(cs, ev, ev.len() - 1)), level, file_hash),
            ),
            _ => prev,
        }
    }
}

/// The nodes are those of the emissions `ev` over the document `cs`: node `i`
/// has the kind and text of emission `i`, and its metadata is that of
/// `node_ok` in the section stack after the first `i + 1` emissions.
pub open spec fn nodes_follow(
    nodes: Seq<MdNode>,
    cs: Seq<char>,
    ev: Seq<Emit>,
    source_path: Seq<char>,
    file_hash: Option<Seq<char>>,
) -> bool {
    &&& nodes.len() == ev.len()
    &&& forall|i: int|
        0 <= i < nodes.len() ==> {
            &&& (#[trigger] nodes[i]).kind == ev[i].0
            &&& nodes[i].content@ == content_of(cs, ev, i)
            &&& node_ok(nodes[i], i, stack_of(cs, ev.take(i + 1), file_hash), source_path, file_hash)
        }
}

/// The value of the first `<!-- Tanuki-Hash: ... -->` marker of a document.
pub open spec fn hash_marker(cs: Seq<char>) -> Option<Seq<char>> {
    let open = "<!-- Tanuki-Hash: "@;
    match find_from(cs, open, 0) {
        Some(p) => match find_from(cs, " -->"@, p + open.len()) {
            Some(e) => Some(cs.subrange(p + open.len(), e)),
            None => None,
        },
        None => None,
    }
}

/// A file hash that is absent or can be shortened to 8 bytes.
pub open spec fn hash_ok(file_hash: Option<Seq<char>>) -> bool {
    match file_hash {
        Some(h) => short_hash_ok(h),
        None => true,
    }
}

/// No emission is a level-1 header.
pub open spec fn no_h1(ev: Seq<Emit>) -> bool {
    forall|i: int| 0 <= i < ev.len() ==> (#[trigger] ev[i]).0 != MdNodeKind::Header(1)
}

/// Parses a markdown document given as its lines (each read without its line
/// terminator) into nodes: one per emission of the grammar (`parse_events`),
/// with the emission's kind and text and the metadata of `node_ok` in the
/// sections open at that point.  The node contents tile the document from its
/// start, in order.
pub fn parse_markdown_file(lines: &Vec<String>, source_path: String) -> (nodes: Vec<MdNode>)
    requires
        document_text(lines@).len() + 2 <= usize::MAX,
        hash_ok(hash_marker(document_text(lines@))) || no_h1(parse_events(document_text(lines@))),
    ensures
        contents(nodes@).len() <= document_text(lines@).len(),
        contents(nodes@) == document_text(lines@).take(contents(nodes@).len() as int),
        nodes_follow(
            nodes@,
            document_text(lines@),
            parse_events(document_text(lines@)),
            source_path@,
            hash_marker(document_text(lines@)),
        ),
{
    let tokenizer = Tokenizer::from_lines(lines);
    let ghost text = tokenizer.chars@;
    let mut parser = MarkdownParser::new(tokenizer, source_path);
    parser.token = parser.tokenizer.get_token();
    proof {
        let cs = parser.tokenizer.chars@;
        let pos = parser.tokenizer.pos as int;
        assert(contents(parser.nodes@) + parser.tokenizer.last_content@ =~= cs.take(pos));
        assert(parser.tokenizer.last_content@ =~= cs.subrange(0, pos));
        assert(parser.cursor() == grammar::advance_tok(cs, (0, ast::TokenType::TError)));
    }
    parser.parse();
    proof {
        assert(parser.tokenizer.chars@ == text);
        let t = parser.tokenizer.chars@.take(parser.tokenizer.pos as int);
        let k = contents(parser.nodes@).len() as int;
        assert(k <= t.len());
        assert(t.take(k) =~= contents(parser.nodes@));
        assert(text.take(k) =~= t.take(k));
        assert(parser.events@ =~= parse_events(text));
    }
    parser.nodes
}

/// Whether parsing the document emits a level-1 header: whether an H1 token
/// is read before the end of input.
pub fn has_top_header(lines: &Vec<String>) -> (r: bool)
    requires
        document_text(lines@).len() + 2 <= usize::MAX,
    ensures
        r == !no_h1(parse_events(document_text(lines@))),
{
    let mut t = Tokenizer::from_lines(lines);
    let ghost cs = t.chars@;
    let ghost c0 = advance_tok(cs, (0, ast::TokenType::TError));
    let mut tok = t.get_token();
    proof {
        lemma_document_h1(cs, c0);
        grammar::lemma_advance_moves(cs, (0, ast::TokenType::TError));
    }
    while tok.token_type != ast::TokenType::TEof && tok.token_type != ast::TokenType::H1
        invariant
            t.wf(),
            t.chars@ == cs,
            grammar::scanned(cs, (t.pos as int, tok.token_type)),
            stream_has_h1(cs, (t.pos as int, tok.token_type)) == stream_has_h1(cs, c0),
        decreases cursor_measure(cs, (t.pos as int, tok.token_type)),
    {
        let ghost c = (t.pos as int, tok.token_type);
        proof {
            lemma_stream_step(cs, c);
        }
        tok = t.get_token();
    }
    proof {
        if tok.token_type == ast::TokenType::H1 {
            lemma_stream_step(cs, (t.pos as int, tok.token_type));
        }
    }
    tok.token_type == ast::TokenType::H1
}

/// Parses the document as `parse_markdown_file` does; `None` exactly where a
/// level-1 header would have to show a file hash whose first 8 bytes do not
/// end on a character boundary.
pub fn parse_markdown_checked(lines: &Vec<String>, source_path: String) -> (r: Option<Vec<MdNode>>)
    requires
        document_text(lines@).len() + 2 <= usize::MAX,
    ensures
        match r {
            Some(nodes) => {
                &&& hash_ok(hash_marker(document_text(lines@))) || no_h1(parse_events(document_text(lines@)))
                &&& contents(nodes@) == document_text(lines@).take(contents(nodes@).len() as int)
                &&& nodes_follow(
                    nodes@,
                    document_text(lines@),
                    parse_events(document_text(lines@)),
                    source_path@,
                    hash_marker(document_text(lines@)),
                )
            },
            None => !hash_ok(hash_marker(document_text(lines@))) && !no_h1(parse_events(document_text(lines@))),
        },
{
    let t = Tokenizer::from_lines(lines);
    let marker = hash_marker_of(&t.chars);
    if !hash_fits(&marker) && has_top_header(lines) {
        return None;
    }
    Some(parse_markdown_file(lines, source_path))
}

} // verus!
