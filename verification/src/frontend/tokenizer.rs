//! The markdown tokenizer: splits a document's characters into tokens that
//! cover it without gaps.
use vstd::prelude::*;
use crate::frontend::ast::{Span, Token, TokenType};
use crate::text::{chars_of, push_chars};

verus! {

/// The character at `pos`, or NUL past the end.
pub open spec fn peek_at(cs: Seq<char>, pos: int) -> char {
    if 0 <= pos < cs.len() {
        cs[pos]
    } else {
        '\0'
    }
}

/// Three copies of `c` start at `pos`.
pub open spec fn triple_at(cs: Seq<char>, pos: int, c: char) -> bool {
    0 <= pos && pos + 2 < cs.len() && cs[pos] == c && cs[pos + 1] == c && cs[pos + 2] == c
}

/// Number of `#` characters starting at `pos`.
pub open spec fn hash_run(cs: Seq<char>, pos: int) -> nat
    decreases cs.len() - pos,
{
    if 0 <= pos < cs.len() && cs[pos] == '#' {
        1 + hash_run(cs, pos + 1)
    } else {
        0
    }
}

/// A character that continues a plain text token.
pub open spec fn text_char_at(cs: Seq<char>, pos: int) -> bool {
    let c = peek_at(cs, pos);
    c != '\0' && c != '\n' && c != ' ' && c != '#' && !(c == '`' && triple_at(cs, pos, '`'))
}

/// Number of text characters starting at `pos`.
pub open spec fn text_run(cs: Seq<char>, pos: int) -> nat
    decreases cs.len() - pos,
{
    if 0 <= pos < cs.len() && text_char_at(cs, pos) {
        1 + text_run(cs, pos + 1)
    } else {
        0
    }
}

/// The header token for a run of `k` hashes (TEXT when there are more than six).
pub open spec fn header_type(k: nat) -> TokenType {
    if k == 1 {
        TokenType::H1
    } else if k == 2 {
        TokenType::H2
    } else if k == 3 {
        TokenType::H3
    } else if k == 4 {
        TokenType::H4
    } else if k == 5 {
        TokenType::H5
    } else if k == 6 {
        TokenType::H6
    } else {
        TokenType::TEXT
    }
}

/// The token that starts at `pos`: its kind and how many characters it covers.
/// NUL or the end gives `TEof` (nothing consumed); a newline `TNl`; a space
/// `SPACE`; a run of `#` a header H1..H6 when followed by a space, a newline or
/// the end (otherwise TEXT); three backticks `CODE`; three dashes `HR`;
/// otherwise a TEXT run up to NUL, newline, space, `#` or three backticks.
pub open spec fn scan(cs: Seq<char>, pos: int) -> (TokenType, nat) {
    let c = peek_at(cs, pos);
    if c == '\0' {
        (TokenType::TEof, 0)
    } else if c == '\n' {
        (TokenType::TNl, 1)
    } else if c == ' ' {
        (TokenType::SPACE, 1)
    } else if c == '#' {
        let k = hash_run(cs, pos);
        let after = peek_at(cs, pos + k);
        if after == ' ' || after == '\n' || after == '\0' {
            (header_type(k), k)
        } else {
            (TokenType::TEXT, k)
        }
    } else if c == '`' && triple_at(cs, pos, '`') {
        (TokenType::CODE, 3)
    } else if c == '-' && triple_at(cs, pos, '-') {
        (TokenType::HR, 3)
    } else {
        (TokenType::TEXT, text_run(cs, pos))
    }
}

/// Line and column after reading the character `c`: a newline starts the next
/// line, any other character except NUL moves one column right.
pub open spec fn step(lc: (nat, nat), c: char) -> (nat, nat) {
    if c == '\n' {
        (lc.0 + 1, 1)
    } else if c != '\0' {
        (lc.0, lc.1 + 1)
    } else {
        lc
    }
}

/// Line and column after reading `s` from (`line`, `column`).
pub open spec fn advance(line: nat, column: nat, s: Seq<char>) -> (nat, nat)
    decreases s.len(),
{
    if s.len() == 0 {
        (line, column)
    } else {
        step(advance(line, column, s.drop_last()), s.last())
    }
}

/// A character-level tokenizer over a whole document.
pub struct Tokenizer {
    pub chars: Vec<char>,
    pub pos: usize,
    pub line: usize,
    pub column: usize,
    pub last_content: String,
}

impl Tokenizer {
    /// Position within the document, and room for line and column counters.
    pub open spec fn wf(&self) -> bool {
        &&& self.pos <= self.chars@.len()
        &&& self.chars@.len() + 2 <= usize::MAX
        &&& self.bounds()
    }

    pub open spec fn bounds(&self) -> bool {
        &&& self.line >= 1
        &&& self.column >= 1
        &&& self.line + self.column <= self.pos + 2
    }

    /// A tokenizer at the start of `chars` (line 1, column 1).
    pub fn from_chars(chars: Vec<char>) -> (t: Self)
        requires
            chars@.len() + 2 <= usize::MAX,
        ensures
            t.wf(),
            t.chars@ == chars@,
            t.pos == 0,
            t.line as nat == 1,
            t.column as nat == 1,
            t.last_content@ == Seq::<char>::empty(),
    {
        Tokenizer { chars, pos: 0, line: 1, column: 1, last_content: String::new() }
    }

    /// A tokenizer over a document given as its lines: every line is followed
    /// by a newline, as when a file is read line by line.
    pub fn from_lines(lines: &Vec<String>) -> (t: Self)
        requires
            lines_text(lines@.map_values(|l: String| l@)).len() + 2 <= usize::MAX,
        ensures
            t.wf(),
            t.chars@ == lines_text(lines@.map_values(|l: String| l@)),
            t.pos == 0,
            t.line as nat == 1,
            t.column as nat == 1,
            t.last_content@ == Seq::<char>::empty(),
    {
        let ghost views = lines@.map_values(|l: String| l@);
        let mut all_chars: Vec<char> = Vec::new();
        let mut i: usize = 0;
        while i < lines.len()
            invariant
                i <= lines@.len(),
                views == lines@.map_values(|l: String| l@),
                all_chars@ == lines_text(views.take(i as int)),
                lines_text(views).len() + 2 <= usize::MAX,
            decreases lines@.len() - i,
        {
            let line_chars = chars_of(lines[i].as_str());
            let mut j: usize = 0;
            let ghost base = all_chars@;
            while j < line_chars.len()
                invariant
                    j <= line_chars@.len(),
                    all_chars@ == base + line_chars@.take(j as int),
                decreases line_chars@.len() - j,
            {
                all_chars.push(line_chars[j]);
                j = j + 1;
                assert(line_chars@.take(j as int) =~= line_chars@.take(j - 1).push(line_chars@[j - 1]));
            }
            all_chars.push('\n');
            proof {
                assert(line_chars@.take(j as int) =~= line_chars@);
                assert(views.take(i + 1).drop_last() =~= views.take(i as int));
                assert(all_chars@ =~= lines_text(views.take(i + 1)));
            }
            i = i + 1;
        }
        assert(views.take(i as int) =~= views);
        Tokenizer::from_chars(all_chars)
    }

    fn peek(&self) -> (c: char)
        ensures
            c == peek_at(self.chars@, self.pos as int),
    {
        if self.pos < self.chars.len() {
            self.chars[self.pos]
        } else {
            '\0'
        }
    }

    /// Consumes the current character, updating line and column.
    fn consume(&mut self) -> (c: char)
        requires
            old(self).wf(),
            old(self).pos < old(self).chars@.len(),
        ensures
            final(self).wf(),
            c == old(self).chars@[old(self).pos as int],
            final(self).chars@ == old(self).chars@,
            final(self).last_content == old(self).last_content,
            final(self).pos == old(self).pos + 1,
            (final(self).line as nat, final(self).column as nat) == step(
                (old(self).line as nat, old(self).column as nat),
                c,
            ),
    {
        let c = self.peek();
        if c == '\n' {
            self.line = self.line + 1;
            self.column = 1;
        } else if c != '\0' {
            self.column = self.column + 1;
        }
        self.pos = self.pos + 1;
        c
    }

    /// Returns the accumulated token text and starts a new accumulation.
    pub fn get_and_clear_last_content(&mut self) -> (r: String)
        ensures
            r@ == old(self).last_content@,
            final(self).last_content@ == Seq::<char>::empty(),
            final(self).chars@ == old(self).chars@,
            final(self).pos == old(self).pos,
            final(self).line as nat == old(self).line as nat,
            final(self).column as nat == old(self).column as nat,
            old(self).wf() ==> final(self).wf(),
    {
        let content = self.last_content.clone();
        self.last_content = String::new();
        content
    }

    /// Scans the next token (see `scan`), appends its text to `last_content`
    /// and advances past it.  At the end (or at a NUL character) it returns
    /// `TEof` without moving.
    pub fn get_token(&mut self) -> (t: Token)
        requires
            old(self).wf(),
        ensures
            final(self).wf(),
            final(self).chars@ == old(self).chars@,
            t.token_type == scan(old(self).chars@, old(self).pos as int).0,
            final(self).pos == old(self).pos + scan(old(self).chars@, old(self).pos as int).1,
            t.content@ == old(self).chars@.subrange(old(self).pos as int, final(self).pos as int),
            t.span == (Span {
                start: old(self).pos,
                end: final(self).pos,
                line: old(self).line,
                column: old(self).column,
            }),
            final(self).last_content@ == old(self).last_content@ + t.content@,
            (final(self).line as nat, final(self).column as nat) == advance(
                old(self).line as nat,
                old(self).column as nat,
                t.content@,
            ),
    {
        let ghost cs = self.chars@;
        let start_pos = self.pos;
        let start_line = self.line;
        let start_col = self.column;

        let c = self.peek();
        if c == '\0' {
            assert(cs.subrange(start_pos as int, start_pos as int) =~= Seq::<char>::empty());
            assert(self.last_content@ + Seq::<char>::empty() =~= self.last_content@);
            return Token {
                token_type: TokenType::TEof,
                content: String::new(),
                span: Span::new(start_pos, start_pos, start_line, start_col),
            };
        }
        let mut token = Token::default();
        token.span.start = start_pos;
        token.span.line = start_line;
        token.span.column = start_col;
        let mut text: Vec<char> = Vec::new();

        if c == '\n' {
            self.consume();
            token.token_type = TokenType::TNl;
            text.push('\n');
            proof {
                assert(advance(start_line as nat, start_col as nat, Seq::<char>::empty()) == (start_line as nat, start_col as nat));
                lemma_advance_push(start_line as nat, start_col as nat, seq![], '\n');
                assert(text@ =~= seq!['\n']);
                assert(Seq::<char>::empty().push('\n') =~= seq!['\n']);
            }
        } else if c == ' ' {
            self.consume();
            token.token_type = TokenType::SPACE;
            text.push(' ');
            proof {
                assert(advance(start_line as nat, start_col as nat, Seq::<char>::empty()) == (start_line as nat, start_col as nat));
                lemma_advance_push(start_line as nat, start_col as nat, seq![], ' ');
                assert(text@ =~= seq![' ']);
                assert(Seq::<char>::empty().push(' ') =~= seq![' ']);
            }
        } else if c == '#' {
            while self.peek() == '#'
                invariant
                    self.wf(),
                    self.chars@ == cs,
                    start_pos <= self.pos,
                    text@ == cs.subrange(start_pos as int, self.pos as int),
                    hash_run(cs, start_pos as int) == (self.pos - start_pos) + hash_run(cs, self.pos as int),
                    (self.line as nat, self.column as nat) == advance(start_line as nat, start_col as nat, text@),
                    self.last_content == old(self).last_content,
                decreases cs.len() - self.pos,
            {
                let ghost before = text@;
                let ch = self.consume();
                text.push(ch);
                proof {
                    assert(text@ =~= cs.subrange(start_pos as int, self.pos as int));
                    assert(text@.drop_last() =~= before);
                    lemma_advance_push(start_line as nat, start_col as nat, before, ch);
                }
            }
            let k = self.pos - start_pos;
            let after = self.peek();
            if after == ' ' || after == '\n' || after == '\0' {
                token.token_type = if k == 1 {
                    TokenType::H1
                } else if k == 2 {
                    TokenType::H2
                } else if k == 3 {
                    TokenType::H3
                } else if k == 4 {
                    TokenType::H4
                } else if k == 5 {
                    TokenType::H5
                } else if k == 6 {
                    TokenType::H6
                } else {
                    TokenType::TEXT
                };
            } else {
                token.token_type = TokenType::TEXT;
            }
        } else if c == '`' && self.pos + 2 < self.chars.len() && self.chars[self.pos + 1] == '`'
            && self.chars[self.pos + 2] == '`' {
            let c1 = self.consume();
            let c2 = self.consume();
            let c3 = self.consume();
            token.token_type = TokenType::CODE;
            text.push(c1);
            text.push(c2);
            text.push(c3);
            proof {
                assert(advance(start_line as nat, start_col as nat, Seq::<char>::empty()) == (start_line as nat, start_col as nat));
                lemma_advance_push(start_line as nat, start_col as nat, seq![], c1);
                lemma_advance_push(start_line as nat, start_col as nat, seq![c1], c2);
                lemma_advance_push(start_line as nat, start_col as nat, seq![c1, c2], c3);
                assert(Seq::<char>::empty().push(c1) =~= seq![c1]);
                assert(seq![c1].push(c2) =~= seq![c1, c2]);
                assert(seq![c1, c2].push(c3) =~= seq![c1, c2, c3]);
                assert(text@ =~= seq![c1, c2, c3]);
            }
        } else if c == '-' && self.pos + 2 < self.chars.len() && self.chars[self.pos + 1] == '-'
            && self.chars[self.pos + 2] == '-' {
            let c1 = self.consume();
            let c2 = self.consume();
            let c3 = self.consume();
            token.token_type = TokenType::HR;
            text.push(c1);
            text.push(c2);
            text.push(c3);
            proof {
                assert(advance(start_line as nat, start_col as nat, Seq::<char>::empty()) == (start_line as nat, start_col as nat));
                lemma_advance_push(start_line as nat, start_col as nat, seq![], c1);
                lemma_advance_push(start_line as nat, start_col as nat, seq![c1], c2);
                lemma_advance_push(start_line as nat, start_col as nat, seq![c1, c2], c3);
                assert(Seq::<char>::empty().push(c1) =~= seq![c1]);
                assert(seq![c1].push(c2) =~= seq![c1, c2]);
                assert(seq![c1, c2].push(c3) =~= seq![c1, c2, c3]);
                assert(text@ =~= seq![c1, c2, c3]);
            }
        } else {
            while self.peek() != '\0' && self.peek() != '\n' && self.peek() != ' ' && self.peek() != '#'
                && !(self.peek() == '`' && self.pos + 2 < self.chars.len() && self.chars[self.pos + 1]
                == '`' && self.chars[self.pos + 2] == '`')
                invariant
                    self.wf(),
                    self.chars@ == cs,
                    start_pos <= self.pos,
                    text@ == cs.subrange(start_pos as int, self.pos as int),
                    text_run(cs, start_pos as int) == (self.pos - start_pos) + text_run(cs, self.pos as int),
                    (self.line as nat, self.column as nat) == advance(start_line as nat, start_col as nat, text@),
                    self.last_content == old(self).last_content,
                decreases cs.len() - self.pos,
            {
                let ghost before = text@;
                let ch = self.consume();
                text.push(ch);
                proof {
                    assert(text@ =~= cs.subrange(start_pos as int, self.pos as int));
                    assert(text@.drop_last() =~= before);
                    lemma_advance_push(start_line as nat, start_col as nat, before, ch);
                }
            }
            token.token_type = TokenType::TEXT;
        }
        proof {
            assert(text@ =~= cs.subrange(start_pos as int, self.pos as int));
        }
        let mut content = String::new();
        push_chars(&mut content, text.as_slice());
        token.content = content;
        token.span.end = self.pos;
        self.last_content.push_str(token.content.as_str());
        token
    }
}

/// The text of a document given by lines: each line followed by a newline.
pub open spec fn lines_text(lines: Seq<Seq<char>>) -> Seq<char>
    decreases lines.len(),
{
    if lines.len() == 0 {
        Seq::empty()
    } else {
        lines_text(lines.drop_last()) + lines.last() + seq!['\n']
    }
}

proof fn lemma_advance_push(line: nat, column: nat, s: Seq<char>, c: char)
    ensures
        advance(line, column, s.push(c)) == step(advance(line, column, s), c),
{
    assert(s.push(c).drop_last() =~= s);
}

} // verus!
