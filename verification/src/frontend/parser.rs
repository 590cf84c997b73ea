//! Recursive-descent markdown parser over the tokenizer's stream.  Each
//! production follows its rule in `grammar`.
use vstd::prelude::*;
use vstd::utf8::{decode_utf8, encode_utf8};
use crate::flat_ast::calculate_fnv1a;
use crate::frontend::ast::{Token, TokenType};
use crate::frontend::grammar::{
    Cursor, Emit, advance_tok, after_element, blank_rule, body_tokens, code_rule, cursor_measure, document_rule,
    element_rule, emitted, header_rule, lemma_document_step, is_eof, lemma_scan_progress, line_tokens, paragraph_rule,
    skip_while, space_tokens,
};
use crate::frontend::tokenizer::Tokenizer;
use crate::frontend::{
    MdNode, MdNodeKind, contents, hash_ok, no_h1, content_of, display_title, enter_section, events_fit, hash_label,
    hash_marker, header_title, last_end, node_ok, nodes_follow, opt_view, parent_of, section_path,
    short_hash, short_hash_ok, stack_of, start_of,
};
use crate::text::{
    chars_of, find_chars, join, owned, push_decimal, slice_chars, string_from_chars,
    strip_leading_chars, trim_chars, join_strings,
};

verus! {

/// Parser state: the tokenizer, the current (lookahead) token, the file's
/// metadata, the stack of open section titles and the nodes emitted so far.
pub struct MarkdownParser {
    pub tokenizer: Tokenizer,
    pub token: Token,
    pub source_path: String,
    pub file_hash: Option<String>,
    pub context_stack: Vec<String>,
    pub nodes: Vec<MdNode>,
    /// The grammar's emissions so far, one per node.
    pub events: Ghost<Seq<Emit>>,
}

/// The titles held in a stack of strings.
pub open spec fn titles(v: Seq<String>) -> Seq<Seq<char>> {
    v.map_values(|s: String| s@)
}

/// The header tokens H1..H6.
pub open spec fn is_header_token(t: TokenType) -> bool {
    ||| t == TokenType::H1
    ||| t == TokenType::H2
    ||| t == TokenType::H3
    ||| t == TokenType::H4
    ||| t == TokenType::H5
    ||| t == TokenType::H6
}

impl MarkdownParser {
    /// The grammar cursor: the position after the lookahead, and its kind.
    pub open spec fn cursor(&self) -> Cursor {
        (self.tokenizer.pos as int, self.token.token_type)
    }

    /// The parser invariant: the tokenizer is well formed; the emitted node
    /// contents followed by the pending token text are exactly the consumed
    /// prefix of the document; the pending text starts where the last
    /// emission ended; the nodes are those of the emissions, and the section
    /// stack is the one they leave open.
    pub open spec fn inv(&self) -> bool {
        let cs = self.tokenizer.chars@;
        let ev = self.events@;
        let hash = opt_view(self.file_hash);
        &&& self.tokenizer.wf()
        &&& contents(self.nodes@) + self.tokenizer.last_content@ == cs.take(self.tokenizer.pos as int)
        &&& events_fit(ev, self.tokenizer.pos as int)
        &&& self.tokenizer.last_content@ == cs.subrange(last_end(ev), self.tokenizer.pos as int)
        &&& nodes_follow(self.nodes@, cs, ev, self.source_path@, hash)
        &&& titles(self.context_stack@) == stack_of(cs, ev, hash)
    }

    /// Level-1 headers can show the file hash: it is absent or can be shortened.
    pub open spec fn hash_ok(&self) -> bool {
        hash_ok(opt_view(self.file_hash))
    }

    /// Termination measure: remaining characters, and whether the lookahead is not EOF.
    pub open spec fn measure(&self) -> int {
        cursor_measure(self.tokenizer.chars@, self.cursor())
    }

    /// What every parsing step keeps: the document and metadata, a position
    /// that only moves forward, and a lookahead that only changes (at the same
    /// position) into EOF.
    pub open spec fn step_from(&self, old: &Self) -> bool {
        &&& self.tokenizer.chars@ == old.tokenizer.chars@
        &&& self.source_path@ == old.source_path@
        &&& opt_view(self.file_hash) == opt_view(old.file_hash)
        &&& self.tokenizer.pos >= old.tokenizer.pos
        &&& self.tokenizer.pos == old.tokenizer.pos ==> (self.token.token_type == old.token.token_type
            || is_eof(self.token.token_type))
        &&& self.nodes@.len() >= old.nodes@.len()
    }

    /// The step from `old` went as the grammar rule with result `r` says: it
    /// ends at the rule's cursor and adds the rule's emission.
    pub open spec fn follows(&self, old: &Self, r: (Cursor, Option<Emit>)) -> bool {
        &&& self.cursor() == r.0
        &&& self.events@ == old.events@ + emitted(r.1)
    }

    /// A parser over `tokenizer`; the file hash is read from the first
    /// `<!-- Tanuki-Hash: ... -->` marker of the document.
    pub fn new(tokenizer: Tokenizer, source_path: String) -> (p: Self)
        requires
            tokenizer.wf(),
            tokenizer.pos == 0,
            tokenizer.last_content@ == Seq::<char>::empty(),
        ensures
            p.inv(),
            p.tokenizer == tokenizer,
            p.source_path == source_path,
            opt_view(p.file_hash) == hash_marker(tokenizer.chars@),
            p.nodes@.len() == 0,
            p.events@.len() == 0,
            p.context_stack@.len() == 0,
            p.token.token_type == TokenType::TError,
    {
        let file_hash = hash_marker_of(&tokenizer.chars);
        proof {
            assert(contents(Seq::<MdNode>::empty()) + tokenizer.last_content@ =~= tokenizer.chars@.take(0));
            assert(tokenizer.last_content@ =~= tokenizer.chars@.subrange(0, 0));
        }
        let p = MarkdownParser {
            tokenizer,
            token: Token::default(),
            source_path,
            file_hash,
            context_stack: Vec::new(),
            nodes: Vec::new(),
            events: Ghost(Seq::empty()),
        };
        proof {
            assert(titles(p.context_stack@) =~= Seq::<Seq<char>>::empty());
        }
        p
    }

    /// Fetches the next token into the lookahead.
    #[verifier::rlimit(60)]
    fn next_token(&mut self)
        requires
            old(self).inv(),
        ensures
            final(self).inv(),
            final(self).step_from(old(self)),
            final(self).cursor() == advance_tok(old(self).tokenizer.chars@, old(self).cursor()),
            final(self).nodes@ == old(self).nodes@,
            final(self).events@ == old(self).events@,
            final(self).context_stack@ == old(self).context_stack@,
            !is_eof(old(self).token.token_type) ==> final(self).measure() < old(self).measure(),
            final(self).measure() <= old(self).measure(),
    {
        let ghost old_pos = self.tokenizer.pos as int;
        let ghost old_last = self.tokenizer.last_content@;
        let ghost cs = self.tokenizer.chars@;
        proof {
            lemma_scan_progress(cs, old_pos);
        }
        self.token = self.tokenizer.get_token();
        proof {
            let new_pos = self.tokenizer.pos as int;
            let le = last_end(self.events@);
            assert(self.tokenizer.last_content@ == old_last + cs.subrange(old_pos, new_pos));
            assert(cs.take(new_pos) =~= cs.take(old_pos) + cs.subrange(old_pos, new_pos));
            assert(contents(self.nodes@) + self.tokenizer.last_content@ =~= (contents(self.nodes@)
                + old_last) + cs.subrange(old_pos, new_pos));
            assert(self.tokenizer.last_content@ =~= cs.subrange(le, new_pos));
        }
    }

    /// Emits the node for a header of `level`: pops sections of the same or a
    /// deeper level, pushes this header's title, and records the node.
    #[verifier::rlimit(80)]
    fn on_header(&mut self, level: u8)
        requires
            old(self).inv(),
            1 <= level <= 6,
            level == 1 ==> old(self).hash_ok(),
        ensures
            final(self).inv(),
            final(self).step_from(old(self)),
            final(self).cursor() == old(self).cursor(),
            final(self).events@ == old(self).events@.push(
                (MdNodeKind::Header(level), old(self).tokenizer.pos as int),
            ),
    {
        let ghost old_nodes = self.nodes@;
        let ghost cs = self.tokenizer.chars@;
        let ghost hash = opt_view(self.file_hash);
        let ghost old_ev = self.events@;
        let ghost ev = old_ev.push((MdNodeKind::Header(level), self.tokenizer.pos as int));
        let ghost pre = titles(self.context_stack@);
        let full_text = self.tokenizer.get_and_clear_last_content();
        let full_chars = chars_of(full_text.as_str());
        let stripped = strip_leading_chars(full_chars.as_slice(), '#');
        let title_chars = trim_chars(stripped.as_slice());
        let title = string_from_chars(title_chars.as_slice());
        proof {
            assert(content_of(cs, ev, old_ev.len() as int) == full_text@);
            assert(title@ == header_title(full_text@));
        }

        let ghost snap = *self;
        while self.context_stack.len() >= level as usize
            invariant
                self.tokenizer == snap.tokenizer,
                self.token == snap.token,
                self.source_path == snap.source_path,
                self.file_hash == snap.file_hash,
                self.nodes == snap.nodes,
                self.events == snap.events,
                1 <= level <= 6,
                self.context_stack@.len() <= pre.len(),
                self.context_stack@.len() < pre.len() ==> self.context_stack@.len() >= level - 1,
                titles(self.context_stack@) == pre.take(self.context_stack@.len() as int),
            decreases self.context_stack@.len(),
        {
            self.context_stack.pop();
            proof {
                assert(titles(self.context_stack@) =~= pre.take(self.context_stack@.len() as int));
            }
        }
        let ghost parent_stack = titles(self.context_stack@);
        proof {
            if pre.len() >= level {
                assert(parent_stack =~= pre.take(level - 1));
            } else {
                assert(parent_stack =~= pre);
            }
        }

        let shown_title = shown_header_title(&title, level, &self.file_hash);

        let parent_id = if self.context_stack.len() == 0 {
            None
        } else {
            let joined = join_strings(&self.context_stack, " > ");
            Some(calculate_fnv1a(joined.as_str()))
        };

        self.context_stack.push(shown_title);
        let ghost stack = titles(self.context_stack@);
        proof {
            assert(stack.drop_last() =~= parent_stack);
            assert(stack =~= enter_section(pre, level, display_title(title@, level, hash)));
            assert(ev.drop_last() =~= old_ev);
            assert(stack == stack_of(cs, ev, hash));
        }

        let id = header_id(&self.file_hash, level, self.nodes.len());

        let context_path = join_strings(&self.context_stack, " > ");
        let file_hash = match &self.file_hash {
            Some(h) => Some(owned(h.as_str())),
            None => None,
        };
        let node = MdNode {
            id,
            source_path: owned(self.source_path.as_str()),
            file_hash,
            context_path,
            parent_id,
            title,
            content: full_text,
            kind: MdNodeKind::Header(level),
        };
        self.nodes.push(node);
        proof {
            self.events@ = ev;
            lemma_events_push(cs, old_ev, (MdNodeKind::Header(level), self.tokenizer.pos as int), hash);
            assert(self.nodes@.drop_last() =~= old_nodes);
            assert(ev.take(old_ev.len() + 1int) =~= ev);
            assert forall|i: int| 0 <= i < self.nodes@.len() implies {
                &&& (#[trigger] self.nodes@[i]).kind == ev[i].0
                &&& self.nodes@[i].content@ == content_of(cs, ev, i)
                &&& node_ok(self.nodes@[i], i, stack_of(cs, ev.take(i + 1), hash), self.source_path@, hash)
            } by {
                if i < old_nodes.len() {
                    assert(self.nodes@[i] == old_nodes[i]);
                    assert(ev.take(i + 1) =~= old_ev.take(i + 1));
                } else {
                    let n = self.nodes@[i];
                    assert(n.context_path@ == section_path(stack));
                    assert(1 <= stack.len() <= level);
                    assert(n.parent_id == parent_of(stack.drop_last()));
                    assert(n.title@ == crate::text::trim(crate::text::strip_leading(n.content@, '#')));
                    assert(stack.last() == display_title(n.title@, level, hash));
                    assert(n.id@ == hash_label(hash) + "-"@ + crate::text::decimal(level as nat) + "-"@
                        + crate::text::decimal(i as nat));
                }
            }
            assert(self.tokenizer.last_content@ =~= cs.subrange(last_end(ev), self.tokenizer.pos as int));
        }
    }

    /// Emits a paragraph or code block node with the pending token text.
    fn on_block(&mut self, kind: MdNodeKind)
        requires
            old(self).inv(),
            kind == MdNodeKind::Paragraph || kind == MdNodeKind::CodeBlock,
        ensures
            final(self).inv(),
            final(self).step_from(old(self)),
            final(self).cursor() == old(self).cursor(),
            final(self).events@ == old(self).events@.push((kind, old(self).tokenizer.pos as int)),
    {
        let ghost old_nodes = self.nodes@;
        let ghost cs = self.tokenizer.chars@;
        let ghost hash = opt_view(self.file_hash);
        let ghost old_ev = self.events@;
        let ghost ev = old_ev.push((kind, self.tokenizer.pos as int));
        let content = self.tokenizer.get_and_clear_last_content();
        let parent_id = if self.context_stack.len() == 0 {
            None
        } else {
            let joined = join_strings(&self.context_stack, " > ");
            Some(calculate_fnv1a(joined.as_str()))
        };
        let ghost stack = titles(self.context_stack@);

        let mut id = String::new();
        match &self.file_hash {
            Some(h) => id.push_str(h.as_str()),
            None => id.push_str("unknown"),
        }
        let title = match kind {
            MdNodeKind::CodeBlock => {
                id.push_str("-code-");
                owned("Code Block")
            },
            _ => {
                id.push_str("-p-");
                owned("Paragraph")
            },
        };
        push_decimal(&mut id, self.nodes.len() as u64);

        let context_path = join_strings(&self.context_stack, " > ");
        let file_hash = match &self.file_hash {
            Some(h) => Some(owned(h.as_str())),
            None => None,
        };
        self.nodes.push(MdNode {
            id,
            source_path: owned(self.source_path.as_str()),
            file_hash,
            context_path,
            parent_id,
            title,
            content,
            kind,
        });
        proof {
            self.events@ = ev;
            lemma_events_push(cs, old_ev, (kind, self.tokenizer.pos as int), hash);
            assert(ev.drop_last() =~= old_ev);
            assert(stack == stack_of(cs, ev, hash));
            assert(self.nodes@.drop_last() =~= old_nodes);
            assert(ev.take(old_ev.len() + 1int) =~= ev);
            assert forall|i: int| 0 <= i < self.nodes@.len() implies {
                &&& (#[trigger] self.nodes@[i]).kind == ev[i].0
                &&& self.nodes@[i].content@ == content_of(cs, ev, i)
                &&& node_ok(self.nodes@[i], i, stack_of(cs, ev.take(i + 1), hash), self.source_path@, hash)
            } by {
                if i < old_nodes.len() {
                    assert(self.nodes@[i] == old_nodes[i]);
                    assert(ev.take(i + 1) =~= old_ev.take(i + 1));
                }
            }
            assert(self.tokenizer.last_content@ =~= cs.subrange(last_end(ev), self.tokenizer.pos as int));
        }
    }

    /// Emits a paragraph node with the pending token text.
    fn on_paragraph(&mut self)
        requires
            old(self).inv(),
        ensures
            final(self).inv(),
            final(self).step_from(old(self)),
            final(self).cursor() == old(self).cursor(),
            final(self).events@ == old(self).events@.push(
                (MdNodeKind::Paragraph, old(self).tokenizer.pos as int),
            ),
    {
        self.on_block(MdNodeKind::Paragraph);
    }

    /// Emits a code block node with the pending token text.
    fn on_code_block(&mut self)
        requires
            old(self).inv(),
        ensures
            final(self).inv(),
            final(self).step_from(old(self)),
            final(self).cursor() == old(self).cursor(),
            final(self).events@ == old(self).events@.push(
                (MdNodeKind::CodeBlock, old(self).tokenizer.pos as int),
            ),
    {
        self.on_block(MdNodeKind::CodeBlock);
    }
}

/// Appending an emission that ends at `e.1`, at or after the last end, keeps
/// the earlier emissions' texts, and its own text is what lies between.
proof fn lemma_events_push(cs: Seq<char>, ev: Seq<Emit>, e: Emit, hash: Option<Seq<char>>)
    ensures
        forall|i: int| 0 <= i < ev.len() ==> #[trigger] content_of(cs, ev.push(e), i) == content_of(cs, ev, i),
        forall|i: int| 0 <= i <= ev.len() ==> #[trigger] start_of(ev.push(e), i) == start_of(ev, i),
        content_of(cs, ev.push(e), ev.len() as int) == cs.subrange(last_end(ev), e.1),
        last_end(ev.push(e)) == e.1,
{
    let ev2 = ev.push(e);
    assert forall|i: int| 0 <= i <= ev.len() implies #[trigger] start_of(ev2, i) == start_of(ev, i) by {
        if i > 0 {
            assert(ev2[i - 1] == ev[i - 1]);
        }
    }
    assert forall|i: int| 0 <= i < ev.len() implies #[trigger] content_of(cs, ev2, i) == content_of(cs, ev, i) by {
        assert(start_of(ev2, i) == start_of(ev, i));
        assert(ev2[i] == ev[i]);
    }
}

/// The value of the first `<!-- Tanuki-Hash: ... -->` marker of a document.
pub fn hash_marker_of(chars: &Vec<char>) -> (r: Option<String>)
    ensures
        opt_view(r) == hash_marker(chars@),
{
    let mut file_hash: Option<String> = None;
    let open_pat = chars_of("<!-- Tanuki-Hash: ");
    let close_pat = chars_of(" -->");
    if let Some(pos) = find_chars(chars.as_slice(), open_pat.as_slice(), 0) {
        if open_pat.len() <= chars.len() && pos <= chars.len() - open_pat.len() {
            let start = pos + open_pat.len();
            if let Some(end) = find_chars(chars.as_slice(), close_pat.as_slice(), start) {
                let h = slice_chars(chars.as_slice(), start, end);
                file_hash = Some(string_from_chars(h.as_slice()));
            }
        }
    }
    file_hash
}

/// Whether a file hash can be shown in level-1 headers: it is absent, or its
/// first 8 bytes end on a character boundary.
pub fn hash_fits(file_hash: &Option<String>) -> (r: bool)
    ensures
        r == hash_ok(opt_view(*file_hash)),
{
    match file_hash {
        Some(h) => {
            let hs = h.as_str();
            let short = hs.as_bytes().len() <= 8;
            short || hs.is_char_boundary(8)
        },
        None => true,
    }
}

/// The title a header shows in context paths (see `display_title`).
fn shown_header_title(title: &String, level: u8, file_hash: &Option<String>) -> (r: String)
    requires
        level == 1 ==> hash_ok(opt_view(*file_hash)),
    ensures
        r@ == display_title(title@, level, opt_view(*file_hash)),
{
    match file_hash {
        Some(h) => {
            if level == 1 {
                let mut d = owned(title.as_str());
                d.push_str(" (");
                let hs = h.as_str();
                let blen = hs.as_bytes().len();
                assert(blen == encode_utf8(h@).len());
                let short_h = if blen > 8 {
                    let (head, _) = hs.split_at(8);
                    proof {
                        vstd::utf8::encode_utf8_decode_utf8(head@);
                        assert(encode_utf8(h@).subrange(0, 8) =~= encode_utf8(h@).take(8));
                    }
                    head
                } else {
                    hs
                };
                d.push_str(short_h);
                d.push_str(")");
                d
            } else {
                owned(title.as_str())
            }
        },
        None => owned(title.as_str()),
    }
}

/// `<hash>-<level>-<index>`, with "unknown" in place of a missing hash.
fn header_id(file_hash: &Option<String>, level: u8, index: usize) -> (r: String)
    ensures
        r@ == hash_label(opt_view(*file_hash)) + "-"@ + crate::text::decimal(level as nat) + "-"@
            + crate::text::decimal(index as nat),
{
    let mut id = String::new();
    match file_hash {
        Some(h) => id.push_str(h.as_str()),
        None => id.push_str("unknown"),
    }
    id.push_str("-");
    push_decimal(&mut id, level as u64);
    id.push_str("-");
    push_decimal(&mut id, index as u64);
    id
}

/// A concatenation without level-1 headers has none in either part.
proof fn lemma_no_h1_split(a: Seq<Emit>, b: Seq<Emit>)
    requires
        no_h1(a + b),
    ensures
        no_h1(a),
        no_h1(b),
{
    assert forall|i: int| 0 <= i < a.len() implies (#[trigger] a[i]).0 != MdNodeKind::Header(1) by {
        assert((a + b)[i] == a[i]);
    }
    assert forall|i: int| 0 <= i < b.len() implies (#[trigger] b[i]).0 != MdNodeKind::Header(1) by {
        assert((a + b)[i + a.len()] == b[i]);
    }
}

proof fn lemma_step_trans(a: &MarkdownParser, b: &MarkdownParser, c: &MarkdownParser)
    requires
        b.step_from(a),
        c.step_from(b),
    ensures
        c.step_from(a),
{
}

proof fn lemma_step_refl(a: &MarkdownParser)
    ensures
        a.step_from(a),
{
}

impl MarkdownParser {
    fn document(&mut self) -> (r: Option<()>)
        requires
            old(self).inv(),
            old(self).hash_ok() || no_h1(document_rule(old(self).tokenizer.chars@, old(self).cursor())),
        ensures
            final(self).inv(),
            final(self).step_from(old(self)),
            final(self).events@ == old(self).events@ + document_rule(
                old(self).tokenizer.chars@,
                old(self).cursor(),
            ),
            is_eof(final(self).token.token_type),
            r is None,
    {
        let ret_val: Option<()> = None;
        let ghost cs = self.tokenizer.chars@;
        proof {
            lemma_step_refl(self);
            assert(self.events@ + document_rule(cs, self.cursor()) =~= old(self).events@ + document_rule(
                cs,
                old(self).cursor(),
            ));
        }
        while self.token.token_type != TokenType::TEof
            invariant
                self.inv(),
                self.step_from(old(self)),
                cs == old(self).tokenizer.chars@,
                self.events@ + document_rule(cs, self.cursor()) == old(self).events@ + document_rule(
                    cs,
                    old(self).cursor(),
                ),
                self.hash_ok() || no_h1(document_rule(cs, self.cursor())),
            decreases self.measure(),
        {
            let last_pos = self.tokenizer.pos;
            let ghost before = *self;
            let ghost c = self.cursor();
            proof {
                lemma_document_step(cs, c);
                if !self.hash_ok() {
                    lemma_no_h1_split(emitted(element_rule(cs, c).1), document_rule(cs, after_element(cs, c)));
                }
            }
            let _ = self.element();
            let ghost e = element_rule(cs, c).1;
            proof {
                lemma_step_trans(old(self), &before, self);
            }
            if self.tokenizer.pos == last_pos {
                let ghost mid = *self;
                self.next_token();
                proof {
                    lemma_step_trans(old(self), &mid, self);
                }
            }
            proof {
                assert(self.cursor() == after_element(cs, c));
                assert(self.events@ + document_rule(cs, self.cursor()) =~= before.events@ + document_rule(
                    cs,
                    c,
                ));
            }
        }
        proof {
            assert(self.events@ + document_rule(cs, self.cursor()) =~= self.events@);
        }
        ret_val
    }

    fn element(&mut self) -> (r: Option<()>)
        requires
            old(self).inv(),
            old(self).hash_ok() || no_h1(emitted(element_rule(old(self).tokenizer.chars@, old(self).cursor()).1)),
        ensures
            final(self).inv(),
            final(self).step_from(old(self)),
            final(self).follows(old(self), element_rule(old(self).tokenizer.chars@, old(self).cursor())),
            r is None,
    {
        let ret_val: Option<()> = None;
        match self.token.token_type {
            TokenType::H1 | TokenType::H2 | TokenType::H3 | TokenType::H4 | TokenType::H5 | TokenType::H6 => {
                proof {
                    let ev = emitted(element_rule(self.tokenizer.chars@, self.cursor()).1);
                    assert(self.token.token_type == TokenType::H1 ==> ev[0].0 == MdNodeKind::Header(1));
                }
                let _ = self.header();
            },
            TokenType::CODE => {
                let _ = self.code_block();
            },
            TokenType::TEXT => {
                let _ = self.paragraph();
            },
            TokenType::SPACE | TokenType::TNl => {
                let _ = self.empty_line();
            },
            _ => {
                proof {
                    lemma_step_refl(self);
                    assert(self.events@ =~= self.events@ + emitted(None));
                }
            },
        }
        ret_val
    }

    fn header(&mut self) -> (r: Option<()>)
        requires
            old(self).inv(),
            old(self).token.token_type == TokenType::H1 ==> old(self).hash_ok(),
        ensures
            final(self).inv(),
            final(self).step_from(old(self)),
            is_header_token(old(self).token.token_type) ==> final(self).follows(
                old(self),
                element_rule(old(self).tokenizer.chars@, old(self).cursor()),
            ),
            r is None,
    {
        let ret_val: Option<()> = None;
        match self.token.token_type {
            TokenType::H1 => {
                let _ = self.h1();
            },
            TokenType::H2 => {
                let _ = self.h2();
            },
            TokenType::H3 => {
                let _ = self.h3();
            },
            TokenType::H4 => {
                let _ = self.h4();
            },
            TokenType::H5 => {
                let _ = self.h5();
            },
            TokenType::H6 => {
                let _ = self.h6();
            },
            TokenType::HR => {
                self.next_token();
            },
            TokenType::TEXT => {
                let _ = self.paragraph();
            },
            TokenType::CODE => {
                let _ = self.code_block();
            },
            TokenType::SPACE | TokenType::TNl => {
                self.next_token();
            },
            _ => {
                proof {
                    lemma_step_refl(self);
                }
            },
        }
        ret_val
    }

    /// A header line of `level`: the marker, spaces, the title text, the
    /// header node, and the line's newline.
    fn header_line(&mut self, level: u8, marker: TokenType) -> (r: Option<()>)
        requires
            old(self).inv(),
            1 <= level <= 6,
            level == 1 ==> old(self).hash_ok(),
        ensures
            final(self).inv(),
            final(self).step_from(old(self)),
            old(self).token.token_type == marker ==> final(self).follows(
                old(self),
                header_rule(old(self).tokenizer.chars@, old(self).cursor(), level),
            ),
            r is None,
    {
        let ret_val: Option<()> = None;
        let ghost cs = self.tokenizer.chars@;
        if self.token.token_type != marker {
            proof {
                lemma_step_refl(self);
            }
            return None;
        }
        self.next_token();
        let ghost a = self.cursor();
        proof {
            assert(skip_while(cs, self.cursor(), space_tokens()) == skip_while(cs, a, space_tokens()));
        }
        while self.token.token_type == TokenType::SPACE
            invariant
                self.inv(),
                self.step_from(old(self)),
                cs == old(self).tokenizer.chars@,
                self.events@ == old(self).events@,
                skip_while(cs, self.cursor(), space_tokens()) == skip_while(cs, a, space_tokens()),
            decreases self.measure(),
        {
            let ghost mid = *self;
            self.next_token();
            proof {
                lemma_step_trans(old(self), &mid, self);
                assert(space_tokens().contains(mid.cursor().1));
            }
        }
        proof {
            assert(!space_tokens().contains(self.cursor().1));
        }
        let ghost mid = *self;
        let _ = self.text_line();
        proof {
            lemma_step_trans(old(self), &mid, self);
        }
        let ghost mid2 = *self;
        self.on_header(level);
        proof {
            lemma_step_trans(old(self), &mid2, self);
        }
        if self.token.token_type == TokenType::TNl {
            let ghost mid3 = *self;
            self.next_token();
            proof {
                lemma_step_trans(old(self), &mid3, self);
            }
        }
        proof {
            assert(self.events@ =~= old(self).events@ + emitted(
                header_rule(cs, old(self).cursor(), level).1,
            ));
        }
        ret_val
    }

    fn h1(&mut self) -> (r: Option<()>)
        requires
            old(self).inv(),
            old(self).hash_ok(),
        ensures
            final(self).inv(),
            final(self).step_from(old(self)),
            old(self).token.token_type == TokenType::H1 ==> final(self).follows(
                old(self),
                header_rule(old(self).tokenizer.chars@, old(self).cursor(), 1),
            ),
            r is None,
    {
        self.header_line(1, TokenType::H1)
    }

    fn h2(&mut self) -> (r: Option<()>)
        requires
            old(self).inv(),
        ensures
            final(self).inv(),
            final(self).step_from(old(self)),
            old(self).token.token_type == TokenType::H2 ==> final(self).follows(
                old(self),
                header_rule(old(self).tokenizer.chars@, old(self).cursor(), 2),
            ),
            r is None,
    {
        self.header_line(2, TokenType::H2)
    }

    fn h3(&mut self) -> (r: Option<()>)
        requires
            old(self).inv(),
        ensures
            final(self).inv(),
            final(self).step_from(old(self)),
            old(self).token.token_type == TokenType::H3 ==> final(self).follows(
                old(self),
                header_rule(old(self).tokenizer.chars@, old(self).cursor(), 3),
            ),
            r is None,
    {
        self.header_line(3, TokenType::H3)
    }

    fn h4(&mut self) -> (r: Option<()>)
        requires
            old(self).inv(),
        ensures
            final(self).inv(),
            final(self).step_from(old(self)),
            old(self).token.token_type == TokenType::H4 ==> final(self).follows(
                old(self),
                header_rule(old(self).tokenizer.chars@, old(self).cursor(), 4),
            ),
            r is None,
    {
        self.header_line(4, TokenType::H4)
    }

    fn h5(&mut self) -> (r: Option<()>)
        requires
            old(self).inv(),
        ensures
            final(self).inv(),
            final(self).step_from(old(self)),
            old(self).token.token_type == TokenType::H5 ==> final(self).follows(
                old(self),
                header_rule(old(self).tokenizer.chars@, old(self).cursor(), 5),
            ),
            r is None,
    {
        self.header_line(5, TokenType::H5)
    }

    fn h6(&mut self) -> (r: Option<()>)
        requires
            old(self).inv(),
        ensures
            final(self).inv(),
            final(self).step_from(old(self)),
            old(self).token.token_type == TokenType::H6 ==> final(self).follows(
                old(self),
                header_rule(old(self).tokenizer.chars@, old(self).cursor(), 6),
            ),
            r is None,
    {
        self.header_line(6, TokenType::H6)
    }

    /// Text and spaces up to the end of the line.
    fn text_line(&mut self) -> (r: Option<()>)
        requires
            old(self).inv(),
        ensures
            final(self).inv(),
            final(self).step_from(old(self)),
            final(self).nodes@ == old(self).nodes@,
            final(self).events@ == old(self).events@,
            final(self).cursor() == skip_while(old(self).tokenizer.chars@, old(self).cursor(), line_tokens()),
            r is None,
    {
        let ret_val: Option<()> = None;
        let ghost cs = self.tokenizer.chars@;
        proof {
            lemma_step_refl(self);
        }
        while self.token.token_type == TokenType::TEXT || self.token.token_type == TokenType::SPACE
            invariant
                self.inv(),
                self.step_from(old(self)),
                cs == old(self).tokenizer.chars@,
                self.nodes@ == old(self).nodes@,
                self.events@ == old(self).events@,
                skip_while(cs, self.cursor(), line_tokens()) == skip_while(cs, old(self).cursor(), line_tokens()),
            decreases self.measure(),
        {
            let ghost mid = *self;
            self.next_token();
            proof {
                lemma_step_trans(old(self), &mid, self);
                assert(line_tokens().contains(mid.cursor().1));
            }
        }
        proof {
            assert(!line_tokens().contains(self.cursor().1));
        }
        ret_val
    }

    /// A paragraph: text, spaces and newlines, then the paragraph node.
    fn paragraph(&mut self) -> (r: Option<()>)
        requires
            old(self).inv(),
        ensures
            final(self).inv(),
            final(self).step_from(old(self)),
            old(self).token.token_type == TokenType::TEXT ==> final(self).follows(
                old(self),
                paragraph_rule(old(self).tokenizer.chars@, old(self).cursor()),
            ),
            r is None,
    {
        let ret_val: Option<()> = None;
        let ghost cs = self.tokenizer.chars@;
        if self.token.token_type != TokenType::TEXT {
            proof {
                lemma_step_refl(self);
            }
            return None;
        }
        self.next_token();
        let ghost a = self.cursor();
        while self.token.token_type == TokenType::TEXT || self.token.token_type == TokenType::SPACE
            || self.token.token_type == TokenType::TNl
            invariant
                self.inv(),
                self.step_from(old(self)),
                cs == old(self).tokenizer.chars@,
                self.events@ == old(self).events@,
                skip_while(cs, self.cursor(), body_tokens()) == skip_while(cs, a, body_tokens()),
            decreases self.measure(),
        {
            let ghost mid = *self;
            self.next_token();
            proof {
                lemma_step_trans(old(self), &mid, self);
                assert(body_tokens().contains(mid.cursor().1));
            }
        }
        proof {
            assert(!body_tokens().contains(self.cursor().1));
        }
        let ghost mid = *self;
        self.on_paragraph();
        proof {
            lemma_step_trans(old(self), &mid, self);
        }
        if self.token.token_type == TokenType::TNl {
            let ghost mid2 = *self;
            self.next_token();
            proof {
                lemma_step_trans(old(self), &mid2, self);
            }
        }
        proof {
            assert(self.events@ =~= old(self).events@ + emitted(paragraph_rule(cs, old(self).cursor()).1));
        }
        ret_val
    }

    /// A fenced code block: the fence, an optional language word, a newline,
    /// body lines, the closing fence and its newline, then the code node.
    #[verifier::rlimit(40)]
    fn code_block(&mut self) -> (r: Option<()>)
        requires
            old(self).inv(),
        ensures
            final(self).inv(),
            final(self).step_from(old(self)),
            old(self).token.token_type == TokenType::CODE ==> final(self).follows(
                old(self),
                code_rule(old(self).tokenizer.chars@, old(self).cursor()),
            ),
            r is None,
    {
        let ret_val: Option<()> = None;
        let ghost cs = self.tokenizer.chars@;
        let ghost c0 = self.cursor();
        proof {
            assert(old(self).events@ =~= old(self).events@ + emitted(None));
        }
        if self.token.token_type != TokenType::CODE {
            proof {
                lemma_step_refl(self);
            }
            return None;
        }
        self.next_token();
        if self.token.token_type == TokenType::TEXT {
            let ghost mid = *self;
            self.next_token();
            proof {
                lemma_step_trans(old(self), &mid, self);
            }
        }
        if self.token.token_type != TokenType::TNl {
            return None;
        }
        let ghost mid = *self;
        self.next_token();
        proof {
            lemma_step_trans(old(self), &mid, self);
        }
        let ghost a = self.cursor();
        while self.token.token_type == TokenType::TEXT || self.token.token_type == TokenType::SPACE
            || self.token.token_type == TokenType::TNl
            invariant
                self.inv(),
                self.step_from(old(self)),
                cs == old(self).tokenizer.chars@,
                self.events@ == old(self).events@,
                skip_while(cs, self.cursor(), body_tokens()) == skip_while(cs, a, body_tokens()),
            decreases self.measure(),
        {
            let ghost mid = *self;
            let _ = self.body_line();
            proof {
                lemma_step_trans(old(self), &mid, self);
                assert(body_tokens().contains(mid.cursor().1));
            }
        }
        proof {
            assert(!body_tokens().contains(self.cursor().1));
        }
        if self.token.token_type != TokenType::CODE {
            return None;
        }
        let ghost mid = *self;
        self.next_token();
        proof {
            lemma_step_trans(old(self), &mid, self);
        }
        if self.token.token_type != TokenType::TNl {
            return None;
        }
        let ghost mid = *self;
        self.on_code_block();
        proof {
            lemma_step_trans(old(self), &mid, self);
        }
        let ghost mid = *self;
        self.next_token();
        proof {
            lemma_step_trans(old(self), &mid, self);
            assert(self.events@ =~= old(self).events@ + emitted(code_rule(cs, c0).1));
        }
        ret_val
    }

    /// One token of a code block body.
    fn body_line(&mut self) -> (r: Option<()>)
        requires
            old(self).inv(),
        ensures
            final(self).inv(),
            final(self).step_from(old(self)),
            final(self).events@ == old(self).events@,
            body_tokens().contains(old(self).token.token_type) ==> final(self).cursor() == advance_tok(
                old(self).tokenizer.chars@,
                old(self).cursor(),
            ),
            body_tokens().contains(old(self).token.token_type) ==> final(self).measure() < old(
                self,
            ).measure(),
            r is None,
    {
        let ret_val: Option<()> = None;
        match self.token.token_type {
            TokenType::TEXT => {
                self.next_token();
            },
            TokenType::SPACE => {
                self.next_token();
            },
            TokenType::TNl => {
                self.next_token();
            },
            _ => {
                proof {
                    lemma_step_refl(self);
                }
            },
        }
        ret_val
    }

    /// Spaces and at most one newline.
    fn empty_line(&mut self) -> (r: Option<()>)
        requires
            old(self).inv(),
        ensures
            final(self).inv(),
            final(self).step_from(old(self)),
            final(self).follows(old(self), blank_rule(old(self).tokenizer.chars@, old(self).cursor())),
            r is None,
    {
        let ret_val: Option<()> = None;
        let ghost cs = self.tokenizer.chars@;
        proof {
            lemma_step_refl(self);
        }
        while self.token.token_type == TokenType::SPACE
            invariant
                self.inv(),
                self.step_from(old(self)),
                cs == old(self).tokenizer.chars@,
                self.events@ == old(self).events@,
                skip_while(cs, self.cursor(), space_tokens()) == skip_while(cs, old(self).cursor(), space_tokens()),
            decreases self.measure(),
        {
            let ghost mid = *self;
            self.next_token();
            proof {
                lemma_step_trans(old(self), &mid, self);
                assert(space_tokens().contains(mid.cursor().1));
            }
        }
        proof {
            assert(!space_tokens().contains(self.cursor().1));
        }
        if self.token.token_type == TokenType::TNl {
            let ghost mid = *self;
            self.next_token();
            proof {
                lemma_step_trans(old(self), &mid, self);
            }
        }
        proof {
            assert(self.events@ =~= old(self).events@ + emitted(None));
        }
        ret_val
    }

    /// Parses the rest of the document, appending the grammar's emissions
    /// and their nodes, until the lookahead is EOF.
    pub fn parse(&mut self) -> (r: Option<()>)
        requires
            old(self).inv(),
            old(self).hash_ok() || no_h1(document_rule(old(self).tokenizer.chars@, old(self).cursor())),
        ensures
            final(self).inv(),
            final(self).step_from(old(self)),
            final(self).events@ == old(self).events@ + document_rule(
                old(self).tokenizer.chars@,
                old(self).cursor(),
            ),
            is_eof(final(self).token.token_type),
            r is None,
    {
        self.document()
    }
}

} // verus!
