//! The markdown grammar as spec functions over the token stream.
//!
//! A cursor is the position just after the lookahead token, paired with the
//! lookahead's kind.  Each production maps a cursor to the cursor after it and
//! the node it emits, if any: the node's kind and the position where its text
//! ends (the text runs from the end of the previous node).
use vstd::prelude::*;
use crate::frontend::{MdNodeKind, no_h1};
use crate::frontend::ast::TokenType;
use crate::frontend::tokenizer::{hash_run, peek_at, scan, text_char_at, text_run};

verus! {

/// Position after the lookahead token, and the lookahead's kind.
pub type Cursor = (int, TokenType);

/// A node emission: its kind and the position where its text ends.
pub type Emit = (MdNodeKind, int);

/// Whether a token of this type exists only at the end of the input.
pub open spec fn is_eof(t: TokenType) -> bool {
    t == TokenType::TEof
}

/// The cursor after reading the token that starts at the cursor's position.
pub open spec fn advance_tok(cs: Seq<char>, c: Cursor) -> Cursor {
    (c.0 + scan(cs, c.0).1, scan(cs, c.0).0)
}

/// Termination measure of the token stream from a cursor.
pub open spec fn cursor_measure(cs: Seq<char>, c: Cursor) -> int {
    2 * (cs.len() - c.0) + if is_eof(c.1) {
        0int
    } else {
        1int
    }
}

/// Spaces.
pub open spec fn space_tokens() -> Set<TokenType> {
    set![TokenType::SPACE]
}

/// Text and spaces: the rest of a header line.
pub open spec fn line_tokens() -> Set<TokenType> {
    set![TokenType::TEXT, TokenType::SPACE]
}

/// Text, spaces and newlines: paragraph and code block bodies.
pub open spec fn body_tokens() -> Set<TokenType> {
    set![TokenType::TEXT, TokenType::SPACE, TokenType::TNl]
}

/// Reads tokens while the lookahead is one of `keep`.
pub open spec fn skip_while(cs: Seq<char>, c: Cursor, keep: Set<TokenType>) -> Cursor
    decreases cursor_measure(cs, c),
    when 0 <= c.0 <= cs.len()
{
    if keep.contains(c.1) && !is_eof(c.1) {
        proof {
            lemma_scan_progress(cs, c.0);
        }
        skip_while(cs, advance_tok(cs, c), keep)
    } else {
        c
    }
}

/// A header of `level`: the marker, spaces, the title's text and spaces, the
/// header node (ending there), then the line's newline if present.
pub open spec fn header_rule(cs: Seq<char>, c: Cursor, level: u8) -> (Cursor, Option<Emit>) {
    let c1 = skip_while(cs, advance_tok(cs, c), space_tokens());
    let c2 = skip_while(cs, c1, line_tokens());
    let next = if c2.1 == TokenType::TNl {
        advance_tok(cs, c2)
    } else {
        c2
    };
    (next, Some((MdNodeKind::Header(level), c2.0)))
}

/// A paragraph: a text token, then text, spaces and newlines; the node ends
/// before the first other token.
pub open spec fn paragraph_rule(cs: Seq<char>, c: Cursor) -> (Cursor, Option<Emit>) {
    let c1 = skip_while(cs, advance_tok(cs, c), body_tokens());
    (c1, Some((MdNodeKind::Paragraph, c1.0)))
}

/// A fenced code block: the fence, an optional language word and a newline;
/// body tokens; the closing fence and its newline, where the node ends.  An
/// unexpected token ends the rule there without a node.
pub open spec fn code_rule(cs: Seq<char>, c: Cursor) -> (Cursor, Option<Emit>) {
    let c1 = advance_tok(cs, c);
    let c2 = if c1.1 == TokenType::TEXT {
        advance_tok(cs, c1)
    } else {
        c1
    };
    if c2.1 != TokenType::TNl {
        (c2, None)
    } else {
        let c3 = skip_while(cs, advance_tok(cs, c2), body_tokens());
        if c3.1 != TokenType::CODE {
            (c3, None)
        } else {
            let c4 = advance_tok(cs, c3);
            if c4.1 != TokenType::TNl {
                (c4, None)
            } else {
                (advance_tok(cs, c4), Some((MdNodeKind::CodeBlock, c4.0)))
            }
        }
    }
}

/// A blank line: spaces and at most one newline; no node.
pub open spec fn blank_rule(cs: Seq<char>, c: Cursor) -> (Cursor, Option<Emit>) {
    let c1 = skip_while(cs, c, space_tokens());
    let next = if c1.1 == TokenType::TNl {
        advance_tok(cs, c1)
    } else {
        c1
    };
    (next, None)
}

/// One element, chosen by the lookahead; other tokens are left in place.
pub open spec fn element_rule(cs: Seq<char>, c: Cursor) -> (Cursor, Option<Emit>) {
    match c.1 {
        TokenType::H1 => header_rule(cs, c, 1),
        TokenType::H2 => header_rule(cs, c, 2),
        TokenType::H3 => header_rule(cs, c, 3),
        TokenType::H4 => header_rule(cs, c, 4),
        TokenType::H5 => header_rule(cs, c, 5),
        TokenType::H6 => header_rule(cs, c, 6),
        TokenType::CODE => code_rule(cs, c),
        TokenType::TEXT => paragraph_rule(cs, c),
        TokenType::SPACE | TokenType::TNl => blank_rule(cs, c),
        _ => (c, None),
    }
}

/// The emission as a sequence of zero or one items.
pub open spec fn emitted(e: Option<Emit>) -> Seq<Emit> {
    match e {
        Some(x) => seq![x],
        None => Seq::empty(),
    }
}

/// The cursor after one step of the document rule: after the element, and
/// one token further when the element read nothing.
pub open spec fn after_element(cs: Seq<char>, c: Cursor) -> Cursor {
    let c1 = element_rule(cs, c).0;
    if c1.0 == c.0 {
        advance_tok(cs, c1)
    } else {
        c1
    }
}

/// Elements up to the end of input.
pub open spec fn document_rule(cs: Seq<char>, c: Cursor) -> Seq<Emit>
    decreases cursor_measure(cs, c),
    when 0 <= c.0 <= cs.len()
{
    if is_eof(c.1) {
        Seq::empty()
    } else {
        proof {
            lemma_element_moves(cs, c);
            lemma_scan_progress(cs, element_rule(cs, c).0.0);
        }
        emitted(element_rule(cs, c).1) + document_rule(cs, after_element(cs, c))
    }
}

/// The emissions of a whole document: the first token is read, then the
/// document rule runs.
pub open spec fn parse_events(cs: Seq<char>) -> Seq<Emit> {
    document_rule(cs, advance_tok(cs, (0, TokenType::TError)))
}

/// One step of the document rule: the element's emission, then the rest
/// from the cursor after it.
pub proof fn lemma_document_step(cs: Seq<char>, c: Cursor)
    requires
        0 <= c.0 <= cs.len(),
        !is_eof(c.1),
    ensures
        document_rule(cs, c) == emitted(element_rule(cs, c).1) + document_rule(cs, after_element(cs, c)),
        moves(cs, c, after_element(cs, c)),
{
    lemma_element_moves(cs, c);
    lemma_scan_progress(cs, element_rule(cs, c).0.0);
}

/// `d` is at or after `c`; at the same position, the lookahead is unchanged or EOF.
pub open spec fn moves(cs: Seq<char>, c: Cursor, d: Cursor) -> bool {
    &&& c.0 <= d.0 <= cs.len()
    &&& d.0 == c.0 ==> (d.1 == c.1 || is_eof(d.1))
}

/// Only the end of input reads no characters, and no token runs past the end.
pub proof fn lemma_scan_progress(cs: Seq<char>, pos: int)
    requires
        0 <= pos <= cs.len(),
    ensures
        is_eof(scan(cs, pos).0) <==> scan(cs, pos).1 == 0,
        pos + scan(cs, pos).1 <= cs.len(),
{
    let c = peek_at(cs, pos);
    if c == '#' {
        lemma_hash_run_bound(cs, pos);
    } else if c != '\0' && c != '\n' && c != ' ' {
        lemma_text_run_bound(cs, pos);
    }
}

proof fn lemma_hash_run_bound(cs: Seq<char>, pos: int)
    requires
        0 <= pos <= cs.len(),
    ensures
        pos + hash_run(cs, pos) <= cs.len(),
        (pos < cs.len() && cs[pos] == '#') ==> hash_run(cs, pos) >= 1,
    decreases cs.len() - pos,
{
    if pos < cs.len() && cs[pos] == '#' {
        lemma_hash_run_bound(cs, pos + 1);
    }
}

proof fn lemma_text_run_bound(cs: Seq<char>, pos: int)
    requires
        0 <= pos <= cs.len(),
    ensures
        pos + text_run(cs, pos) <= cs.len(),
    decreases cs.len() - pos,
{
    if pos < cs.len() && text_char_at(cs, pos) {
        lemma_text_run_bound(cs, pos + 1);
    }
}

/// Reading a token moves the cursor.
pub proof fn lemma_advance_moves(cs: Seq<char>, c: Cursor)
    requires
        0 <= c.0 <= cs.len(),
    ensures
        moves(cs, c, advance_tok(cs, c)),
{
    lemma_scan_progress(cs, c.0);
}

/// Skipping moves the cursor, and stops at a token outside `keep` or at EOF.
pub proof fn lemma_skip_moves(cs: Seq<char>, c: Cursor, keep: Set<TokenType>)
    requires
        0 <= c.0 <= cs.len(),
    ensures
        moves(cs, c, skip_while(cs, c, keep)),
        !keep.contains(skip_while(cs, c, keep).1) || is_eof(skip_while(cs, c, keep).1),
    decreases cursor_measure(cs, c),
{
    if keep.contains(c.1) && !is_eof(c.1) {
        lemma_scan_progress(cs, c.0);
        let d = advance_tok(cs, c);
        lemma_skip_moves(cs, d, keep);
    }
}

/// Every element rule moves the cursor.
pub proof fn lemma_element_moves(cs: Seq<char>, c: Cursor)
    requires
        0 <= c.0 <= cs.len(),
    ensures
        moves(cs, c, element_rule(cs, c).0),
{
    let a = advance_tok(cs, c);
    lemma_advance_moves(cs, c);
    match c.1 {
        TokenType::H1 | TokenType::H2 | TokenType::H3 | TokenType::H4 | TokenType::H5 | TokenType::H6 => {
            let c1 = skip_while(cs, a, space_tokens());
            lemma_skip_moves(cs, a, space_tokens());
            let c2 = skip_while(cs, c1, line_tokens());
            lemma_skip_moves(cs, c1, line_tokens());
            lemma_advance_moves(cs, c2);
        },
        TokenType::CODE => {
            let c2 = if a.1 == TokenType::TEXT {
                advance_tok(cs, a)
            } else {
                a
            };
            lemma_advance_moves(cs, a);
            if c2.1 == TokenType::TNl {
                let b = advance_tok(cs, c2);
                lemma_advance_moves(cs, c2);
                let c3 = skip_while(cs, b, body_tokens());
                lemma_skip_moves(cs, b, body_tokens());
                let c4 = advance_tok(cs, c3);
                lemma_advance_moves(cs, c3);
                lemma_advance_moves(cs, c4);
            }
        },
        TokenType::TEXT => {
            lemma_skip_moves(cs, a, body_tokens());
        },
        TokenType::SPACE | TokenType::TNl => {
            let c1 = skip_while(cs, c, space_tokens());
            lemma_skip_moves(cs, c, space_tokens());
            lemma_advance_moves(cs, c1);
        },
        _ => {},
    }
}

} // verus!

verus! {

/// Whether an H1 token is read from the cursor on (the lookahead included)
/// before the end of input.
pub open spec fn stream_has_h1(cs: Seq<char>, c: Cursor) -> bool
    decreases cursor_measure(cs, c),
    when 0 <= c.0 <= cs.len()
{
    if is_eof(c.1) {
        false
    } else {
        proof {
            lemma_scan_progress(cs, c.0);
        }
        c.1 == TokenType::H1 || stream_has_h1(cs, advance_tok(cs, c))
    }
}

/// A cursor whose EOF lookahead (if any) is what the tokenizer reads at its position.
pub open spec fn scanned(cs: Seq<char>, c: Cursor) -> bool {
    is_eof(c.1) ==> is_eof(scan(cs, c.0).0)
}

/// `d` lies past `c`, or at the same position with the end of input ahead.
pub open spec fn progressed(c: Cursor, d: Cursor) -> bool {
    d.0 > c.0 || (d.0 == c.0 && is_eof(d.1))
}

/// One token of the stream: the lookahead, then the stream after it.
pub proof fn lemma_stream_step(cs: Seq<char>, c: Cursor)
    requires
        0 <= c.0 <= cs.len(),
        !is_eof(c.1),
    ensures
        stream_has_h1(cs, c) == (c.1 == TokenType::H1 || stream_has_h1(cs, advance_tok(cs, c))),
        progressed(c, advance_tok(cs, c)),
        scanned(cs, advance_tok(cs, c)),
        0 <= advance_tok(cs, c).0 <= cs.len(),
{
    lemma_scan_progress(cs, c.0);
    lemma_scan_progress(cs, advance_tok(cs, c).0);
}

proof fn lemma_advance_scanned(cs: Seq<char>, c: Cursor)
    requires
        0 <= c.0 <= cs.len(),
    ensures
        scanned(cs, advance_tok(cs, c)),
        (scanned(cs, c) && is_eof(c.1)) ==> advance_tok(cs, c) == c,
{
    lemma_scan_progress(cs, c.0);
}

proof fn lemma_skip_stream(cs: Seq<char>, c: Cursor, keep: Set<TokenType>)
    requires
        0 <= c.0 <= cs.len(),
        !keep.contains(TokenType::H1),
    ensures
        stream_has_h1(cs, c) == stream_has_h1(cs, skip_while(cs, c, keep)),
        scanned(cs, c) ==> scanned(cs, skip_while(cs, c, keep)),
        (keep.contains(c.1) && !is_eof(c.1)) ==> progressed(c, skip_while(cs, c, keep))
            && scanned(cs, skip_while(cs, c, keep)),
    decreases cursor_measure(cs, c),
{
    if keep.contains(c.1) && !is_eof(c.1) {
        let d = advance_tok(cs, c);
        lemma_stream_step(cs, c);
        lemma_skip_stream(cs, d, keep);
        lemma_skip_moves(cs, d, keep);
    }
}

/// An element and the step after it read an H1 token exactly when its
/// lookahead is one.
proof fn lemma_element_stream(cs: Seq<char>, c: Cursor)
    requires
        0 <= c.0 <= cs.len(),
        !is_eof(c.1),
        scanned(cs, c),
    ensures
        stream_has_h1(cs, c) == (c.1 == TokenType::H1 || stream_has_h1(cs, after_element(cs, c))),
        scanned(cs, after_element(cs, c)),
        0 <= after_element(cs, c).0 <= cs.len(),
{
    let a = advance_tok(cs, c);
    lemma_stream_step(cs, c);
    lemma_element_moves(cs, c);
    let next = element_rule(cs, c).0;
    match c.1 {
        TokenType::H1 | TokenType::H2 | TokenType::H3 | TokenType::H4 | TokenType::H5 | TokenType::H6 => {
            let c1 = skip_while(cs, a, space_tokens());
            lemma_skip_stream(cs, a, space_tokens());
            lemma_skip_moves(cs, a, space_tokens());
            let c2 = skip_while(cs, c1, line_tokens());
            lemma_skip_stream(cs, c1, line_tokens());
            lemma_skip_moves(cs, c1, line_tokens());
            if c2.1 == TokenType::TNl {
                lemma_stream_step(cs, c2);
            }
            assert(next == (if c2.1 == TokenType::TNl { advance_tok(cs, c2) } else { c2 }));
            assert(stream_has_h1(cs, a) == stream_has_h1(cs, next));
            assert(progressed(c, next));
            assert(scanned(cs, next));
        },
        TokenType::TEXT => {
            lemma_skip_stream(cs, a, body_tokens());
            lemma_skip_moves(cs, a, body_tokens());
            assert(progressed(c, next));
        },
        TokenType::CODE => {
            let c2 = if a.1 == TokenType::TEXT {
                advance_tok(cs, a)
            } else {
                a
            };
            if a.1 == TokenType::TEXT {
                lemma_stream_step(cs, a);
            }
            if c2.1 == TokenType::TNl {
                let b = advance_tok(cs, c2);
                lemma_stream_step(cs, c2);
                let c3 = skip_while(cs, b, body_tokens());
                lemma_skip_stream(cs, b, body_tokens());
                lemma_skip_moves(cs, b, body_tokens());
                if c3.1 == TokenType::CODE {
                    let c4 = advance_tok(cs, c3);
                    lemma_stream_step(cs, c3);
                    if c4.1 == TokenType::TNl {
                        lemma_stream_step(cs, c4);
                    }
                }
            }
            assert(stream_has_h1(cs, a) == stream_has_h1(cs, next));
            assert(progressed(c, next));
            assert(scanned(cs, next));
        },
        TokenType::SPACE | TokenType::TNl => {
            let c1 = skip_while(cs, c, space_tokens());
            lemma_skip_stream(cs, c, space_tokens());
            lemma_skip_moves(cs, c, space_tokens());
            if c1.1 == TokenType::TNl {
                lemma_stream_step(cs, c1);
            }
            assert(stream_has_h1(cs, c) == stream_has_h1(cs, next));
            assert(progressed(c, next));
            assert(scanned(cs, next));
        },
        _ => {},
    }
    if next.0 == c.0 && next != c {
        lemma_advance_scanned(cs, next);
    }
    if next == c {
        lemma_advance_scanned(cs, c);
    }
}

/// The document rule emits a level-1 header exactly when an H1 token is read
/// before the end of input.
pub proof fn lemma_document_h1(cs: Seq<char>, c: Cursor)
    requires
        0 <= c.0 <= cs.len(),
        scanned(cs, c),
    ensures
        !no_h1(document_rule(cs, c)) == stream_has_h1(cs, c),
    decreases cursor_measure(cs, c),
{
    if !is_eof(c.1) {
        let e = emitted(element_rule(cs, c).1);
        let d = after_element(cs, c);
        lemma_document_step(cs, c);
        lemma_element_stream(cs, c);
        lemma_document_h1(cs, d);
        let rest = document_rule(cs, d);
        assert(no_h1(e) == (c.1 != TokenType::H1)) by {
            if c.1 == TokenType::H1 {
                assert(e[0].0 == MdNodeKind::Header(1));
            }
        }
        if no_h1(e) && no_h1(rest) {
            assert forall|i: int| 0 <= i < (e + rest).len() implies (#[trigger] (e + rest)[i]).0
                != MdNodeKind::Header(1) by {
                if i < e.len() {
                    assert((e + rest)[i] == e[i]);
                } else {
                    assert((e + rest)[i] == rest[i - e.len()]);
                }
            }
        } else if !no_h1(e) {
            let i = choose|i: int| 0 <= i < e.len() && (#[trigger] e[i]).0 == MdNodeKind::Header(1);
            assert((e + rest)[i] == e[i]);
        } else {
            let i = choose|i: int| 0 <= i < rest.len() && (#[trigger] rest[i]).0 == MdNodeKind::Header(1);
            assert((e + rest)[i + e.len()] == rest[i]);
        }
    }
}

} // verus!

verus! {

/// The tokens read from `pos` on, up to and including the first EOF: each
/// token's kind, start and end.
#[verifier::opaque]
pub open spec fn token_run(cs: Seq<char>, pos: int) -> Seq<(TokenType, int, int)>
    decreases cs.len() - pos,
    when 0 <= pos <= cs.len()
{
    if is_eof(scan(cs, pos).0) {
        seq![(scan(cs, pos).0, pos, pos)]
    } else {
        proof {
            lemma_scan_progress(cs, pos);
        }
        seq![(scan(cs, pos).0, pos, pos + scan(cs, pos).1)] + token_run(cs, pos + scan(cs, pos).1)
    }
}

/// The texts of a run of tokens, concatenated.
pub open spec fn run_text(cs: Seq<char>, run: Seq<(TokenType, int, int)>) -> Seq<char>
    decreases run.len(),
{
    if run.len() == 0 {
        Seq::empty()
    } else {
        cs.subrange(run[0].1, run[0].2) + run_text(cs, run.drop_first())
    }
}

proof fn lemma_run_unfold(cs: Seq<char>, pos: int)
    requires
        0 <= pos <= cs.len(),
    ensures
        is_eof(scan(cs, pos).0) ==> token_run(cs, pos) == seq![(scan(cs, pos).0, pos, pos)],
        !is_eof(scan(cs, pos).0) ==> {
            &&& token_run(cs, pos) == seq![(scan(cs, pos).0, pos, pos + scan(cs, pos).1)] + token_run(
                cs,
                pos + scan(cs, pos).1,
            )
            &&& 1 <= scan(cs, pos).1
            &&& pos + scan(cs, pos).1 <= cs.len()
        },
{
    lemma_scan_progress(cs, pos);
    reveal_with_fuel(token_run, 1);
}

proof fn lemma_run_shape(cs: Seq<char>, pos: int)
    requires
        0 <= pos <= cs.len(),
    ensures
        1 <= token_run(cs, pos).len() <= cs.len() - pos + 1,
        token_run(cs, pos)[0].1 == pos,
        is_eof(token_run(cs, pos).last().0),
        token_run(cs, pos).last().1 == token_run(cs, pos).last().2,
        pos <= token_run(cs, pos).last().2 <= cs.len(),
        (forall|i: int| pos <= i < cs.len() ==> cs[i] != '\0') ==> token_run(cs, pos).last().2 == cs.len(),
    decreases cs.len() - pos,
{
    lemma_run_unfold(cs, pos);
    if !is_eof(scan(cs, pos).0) {
        let next = pos + scan(cs, pos).1;
        lemma_run_shape(cs, next);
    } else if pos < cs.len() {
        assert(cs[pos] == '\0');
    }
}

proof fn lemma_run_chain(cs: Seq<char>, pos: int)
    requires
        0 <= pos <= cs.len(),
    ensures
        forall|i: int|
            0 < i < token_run(cs, pos).len() ==> (#[trigger] token_run(cs, pos)[i]).1 == token_run(cs, pos)[i
                - 1].2,
        forall|i: int|
            0 <= i < token_run(cs, pos).len() - 1 ==> {
                let x = #[trigger] token_run(cs, pos)[i];
                &&& !is_eof(x.0)
                &&& x.1 < x.2
                &&& x.0 == scan(cs, x.1).0
                &&& x.2 == x.1 + scan(cs, x.1).1
            },
    decreases cs.len() - pos,
{
    lemma_run_unfold(cs, pos);
    if !is_eof(scan(cs, pos).0) {
        let next = pos + scan(cs, pos).1;
        lemma_run_chain(cs, next);
        lemma_run_shape(cs, next);
        let run = token_run(cs, pos);
        let rest = token_run(cs, next);
        assert forall|i: int| 0 < i < run.len() implies (#[trigger] run[i]).1 == run[i - 1].2 by {
            assert(run[i] == rest[i - 1]);
            if i > 1 {
                assert(run[i - 1] == rest[i - 2]);
            }
        }
        assert forall|i: int| 0 <= i < run.len() - 1 implies {
            let x = #[trigger] run[i];
            &&& !is_eof(x.0)
            &&& x.1 < x.2
            &&& x.0 == scan(cs, x.1).0
            &&& x.2 == x.1 + scan(cs, x.1).1
        } by {
            if i > 0 {
                assert(run[i] == rest[i - 1]);
            }
        }
    }
}

proof fn lemma_run_text(cs: Seq<char>, pos: int)
    requires
        0 <= pos <= cs.len(),
    ensures
        run_text(cs, token_run(cs, pos)) == cs.subrange(pos, token_run(cs, pos).last().2),
    decreases cs.len() - pos,
{
    lemma_run_unfold(cs, pos);
    let run = token_run(cs, pos);
    if is_eof(scan(cs, pos).0) {
        assert(run.drop_first() =~= Seq::<(TokenType, int, int)>::empty());
        assert(run_text(cs, run.drop_first()) == Seq::<char>::empty());
        assert(run_text(cs, run) =~= cs.subrange(pos, pos));
    } else {
        let next = pos + scan(cs, pos).1;
        lemma_run_text(cs, next);
        lemma_run_shape(cs, next);
        let rest = token_run(cs, next);
        assert(run.drop_first() =~= rest);
        assert(run.last() == rest.last());
        assert(run_text(cs, run) == cs.subrange(pos, next) + run_text(cs, rest));
        assert(cs.subrange(pos, next) + cs.subrange(next, rest.last().2) =~= cs.subrange(pos, rest.last().2));
    }
}

/// A run of the tokenizer is lossless: the tokens follow one another without
/// gaps, every token before the EOF is what `scan` reads there and covers at
/// least one character, the run ends with one EOF that reads nothing, and
/// the texts concatenate to the document from `pos` to where the EOF was
/// read, which is the end of the document when it holds no NUL character;
/// so the run has at most one token per character plus the EOF.
pub proof fn lemma_token_run(cs: Seq<char>, pos: int)
    requires
        0 <= pos <= cs.len(),
    ensures
        1 <= token_run(cs, pos).len() <= cs.len() - pos + 1,
        token_run(cs, pos)[0].1 == pos,
        forall|i: int|
            0 < i < token_run(cs, pos).len() ==> (#[trigger] token_run(cs, pos)[i]).1 == token_run(cs, pos)[i
                - 1].2,
        forall|i: int|
            0 <= i < token_run(cs, pos).len() - 1 ==> {
                let x = #[trigger] token_run(cs, pos)[i];
                &&& !is_eof(x.0)
                &&& x.1 < x.2
                &&& x.0 == scan(cs, x.1).0
                &&& x.2 == x.1 + scan(cs, x.1).1
            },
        is_eof(token_run(cs, pos).last().0),
        token_run(cs, pos).last().1 == token_run(cs, pos).last().2,
        pos <= token_run(cs, pos).last().2 <= cs.len(),
        run_text(cs, token_run(cs, pos)) == cs.subrange(pos, token_run(cs, pos).last().2),
        (forall|i: int| pos <= i < cs.len() ==> cs[i] != '\0') ==> token_run(cs, pos).last().2 == cs.len(),
{
    lemma_run_shape(cs, pos);
    lemma_run_chain(cs, pos);
    lemma_run_text(cs, pos);
}

} // verus!
