//! Turns the compact prompt DSL (`#S:`, `#I:`, `#R[..]:`, `└─ #Sub[..]:`)
//! back into a plain chat prompt for the model.
use vstd::prelude::*;
use crate::frontend::opt_view;
use crate::text::{
    is_whitespace, trim_start,
    chars_of, chars_start_with, find_chars, find_from, join, join_strings, lines_of, owned, slice_chars,
    split_lines, starts_with, string_from_chars, trim, trim_chars,
};

verus! {

/// The request of the playground inference endpoint.
pub struct PlaygroundInferRequest {
    pub dsl_output: String,
    pub model_name: Option<String>,
}

/// The model's reply to a playground inference request.
pub struct PlaygroundInferResponse {
    pub response: String,
}

/// Whether the regular expression `pattern`, as `regex::Regex` reads it,
/// matches somewhere in `text`; a pattern that does not compile matches nothing.
pub uninterp spec fn regex_match(pattern: Seq<char>, text: Seq<char>) -> bool;

/// Compiles `pattern` with `regex::Regex::new` and tests `text` with
/// `Regex::is_match`; a compile error gives `false`.
#[verifier::external_body]
fn regex_is_match(pattern: &str, text: &str) -> (r: bool)
    ensures
        r == regex_match(pattern@, text@),
{
    match regex::Regex::new(pattern) {
        Ok(re) => re.is_match(text),
        Err(_) => false,
    }
}

/// Whether `c` is a decimal digit as the regex class `\d` reads it (the
/// Unicode general category Nd).
pub open spec fn decimal_digit(c: char) -> bool {
    regex_match("^\\d$"@, seq![c])
}

/// Whether `c` is a decimal digit (see `decimal_digit`).
pub fn is_decimal_digit(c: char) -> (r: bool)
    ensures
        r == decimal_digit(c),
{
    let mut s = String::new();
    s.push(c);
    assert(s@ =~= seq![c]);
    regex_is_match("^\\d$", s.as_str())
}

/// Number of decimal digits at the start of `s`.
pub open spec fn digit_run(s: Seq<char>) -> nat
    decreases s.len(),
{
    if s.len() > 0 && decimal_digit(s[0]) {
        1 + digit_run(s.drop_first())
    } else {
        0
    }
}

/// What `\s*(.+)$` captures of the rest of a line: the rest without its
/// leading whitespace when that is not empty and holds no newline; when the
/// rest is only whitespace, its last character unless that is a newline.
pub open spec fn tail_capture(rest: Seq<char>) -> Option<Seq<char>> {
    let t = trim_start(rest);
    if t.len() > 0 {
        if t.contains('\n') {
            None
        } else {
            Some(t)
        }
    } else if rest.len() > 0 && rest.last() != '\n' {
        Some(seq![rest.last()])
    } else {
        None
    }
}

/// The rest of a sub-node line from `#Sub[` on: `#Sub[`, one or more decimal
/// digits, `]:`, then what `tail_capture` takes.
pub open spec fn sub_marker_rest(b: Seq<char>) -> Option<Seq<char>> {
    if b.len() >= 5 && b[0] == '#' && b[1] == 'S' && b[2] == 'u' && b[3] == 'b' && b[4] == '[' {
        let c = b.skip(5);
        let n = digit_run(c);
        if n >= 1 && c.len() >= n + 2 && c[n as int] == ']' && c[n + 1int] == ':' {
            tail_capture(c.skip(n + 2int))
        } else {
            None
        }
    } else {
        None
    }
}

/// The payload of a sub-node line `^\s*└─\s*#Sub\[\d+\]:\s*(.+)$`: optional
/// whitespace, `└─`, optional whitespace, then `sub_marker_rest`; `None` for
/// any other line.
pub open spec fn subnode_payload(line: Seq<char>) -> Option<Seq<char>> {
    let a = trim_start(line);
    if a.len() >= 2 && a[0] == '└' && a[1] == '─' {
        sub_marker_rest(trim_start(a.skip(2)))
    } else {
        None
    }
}

/// The first position at or after `from` that is not whitespace.
fn skip_ws(cs: &Vec<char>, from: usize) -> (r: usize)
    requires
        from <= cs@.len(),
    ensures
        from <= r <= cs@.len(),
        trim_start(cs@.skip(from as int)) == cs@.skip(r as int),
{
    let mut r = from;
    while r < cs.len() && is_whitespace(cs[r])
        invariant
            from <= r <= cs@.len(),
            trim_start(cs@.skip(from as int)) == trim_start(cs@.skip(r as int)),
        decreases cs@.len() - r,
    {
        assert(cs@.skip(r as int).drop_first() =~= cs@.skip(r + 1));
        r = r + 1;
    }
    r
}

/// The number of decimal digits starting at `from`.
fn digit_count(cs: &Vec<char>, from: usize) -> (n: usize)
    requires
        from <= cs@.len(),
    ensures
        from + n <= cs@.len(),
        n == digit_run(cs@.skip(from as int)),
{
    let mut r = from;
    while r < cs.len() && is_decimal_digit(cs[r])
        invariant
            from <= r <= cs@.len(),
            digit_run(cs@.skip(from as int)) == (r - from) + digit_run(cs@.skip(r as int)),
        decreases cs@.len() - r,
    {
        assert(cs@.skip(r as int).drop_first() =~= cs@.skip(r + 1));
        r = r + 1;
    }
    r - from
}

/// `tail_capture` of the characters from `from` on.
fn capture_tail(cs: &Vec<char>, from: usize) -> (r: Option<String>)
    requires
        from <= cs@.len(),
    ensures
        opt_view(r) == tail_capture(cs@.skip(from as int)),
{
    let ghost rest = cs@.skip(from as int);
    let q = skip_ws(cs, from);
    let ghost t = cs@.skip(q as int);
    assert(trim_start(rest) == t);
    if q < cs.len() {
        let mut k = q;
        while k < cs.len()
            invariant
                q <= k <= cs@.len(),
                t == cs@.skip(q as int),
                trim_start(rest) == t,
                rest == cs@.skip(from as int),
                q < cs@.len(),
                forall|j: int| q <= j < k ==> cs@[j] != '\n',
            decreases cs@.len() - k,
        {
            if cs[k] == '\n' {
                assert(t[k - q] == '\n');
                assert(t.contains('\n'));
                return None;
            }
            k = k + 1;
        }
        let v = slice_chars(cs.as_slice(), q, cs.len());
        assert(v@ =~= t);
        assert forall|j: int| 0 <= j < t.len() implies t[j] != '\n' by {
            assert(t[j] == cs@[q + j]);
        }
        assert(!t.contains('\n'));
        assert(t.len() > 0);
        Some(string_from_chars(v.as_slice()))
    } else {
        assert(t.len() == 0);
        if from < cs.len() && cs[cs.len() - 1] != '\n' {
            assert(rest.last() == cs@[cs@.len() - 1]);
            let mut s = String::new();
            s.push(cs[cs.len() - 1]);
            assert(s@ =~= seq![rest.last()]);
            Some(s)
        } else {
            if from < cs.len() {
                assert(rest.last() == cs@[cs@.len() - 1]);
            }
            None
        }
    }
}

/// `sub_marker_rest` of the characters from `b` on.
fn capture_marker_rest(cs: &Vec<char>, b: usize) -> (r: Option<String>)
    requires
        b <= cs@.len(),
    ensures
        opt_view(r) == sub_marker_rest(cs@.skip(b as int)),
{
    let ghost bv = cs@.skip(b as int);
    if b < cs.len() && cs.len() - b >= 5 && cs[b] == '#' && cs[b + 1] == 'S' && cs[b + 2] == 'u' && cs[b + 3] == 'b'
        && cs[b + 4] == '[' {
        let c = b + 5;
        let ghost cv = bv.skip(5);
        assert(cv =~= cs@.skip(c as int));
        let n = digit_count(cs, c);
        if n >= 1 && cs.len() - (c + n) >= 2 && cs[c + n] == ']' && cs[c + n + 1] == ':' {
            assert(cv[n as int] == cs@[c + n]);
            assert(cv[n + 1int] == cs@[c + n + 1]);
            assert(cv.skip(n + 2int) =~= cs@.skip(c + n + 2));
            capture_tail(cs, c + n + 2)
        } else {
            proof {
                if n >= 1 && cv.len() >= n + 2 {
                    assert(cv[n as int] == cs@[c + n]);
                    assert(cv[n + 1int] == cs@[c + n + 1]);
                }
            }
            None
        }
    } else {
        None
    }
}

/// The payload of a sub-node line (see `subnode_payload`).
pub fn capture_subnode(line: &str) -> (r: Option<String>)
    ensures
        opt_view(r) == subnode_payload(line@),
{
    let cs = chars_of(line);
    assert(cs@.skip(0) =~= cs@);
    let a = skip_ws(&cs, 0);
    let ghost av = cs@.skip(a as int);
    if a < cs.len() && cs.len() - a >= 2 && cs[a] == '└' && cs[a + 1] == '─' {
        assert(av.skip(2) =~= cs@.skip(a + 2));
        let b = skip_ws(&cs, a + 2);
        capture_marker_rest(&cs, b)
    } else {
        None
    }
}

/// What has been read of the DSL so far: system lines, task lines, finished
/// reference blocks, the title of the open reference block (empty when none
/// is open) and the body lines of that block.
pub struct DslState {
    pub system: Seq<Seq<char>>,
    pub tasks: Seq<Seq<char>>,
    pub refs: Seq<Seq<char>>,
    pub title: Seq<char>,
    pub body: Seq<Seq<char>>,
}

/// A reference block: `### title`, then its body lines.
pub open spec fn ref_block(title: Seq<char>, body: Seq<Seq<char>>) -> Seq<char> {
    "### "@ + title + "\n"@ + join(body, "\n"@)
}

/// The state with the open reference block (if any) closed.
pub open spec fn close_block(st: DslState) -> Seq<Seq<char>> {
    if st.title.len() > 0 {
        st.refs.push(ref_block(st.title, st.body))
    } else {
        st.refs
    }
}

/// Reads one line; `cap` is what the sub-node pattern captures in it.
pub open spec fn dsl_step(st: DslState, line: Seq<char>, cap: Option<Seq<char>>) -> DslState {
    let t = trim(line);
    if t.len() == 0 {
        st
    } else if starts_with(t, "#S:"@) {
        DslState { system: st.system.push(trim(t.skip("#S:"@.len() as int))), ..st }
    } else if starts_with(t, "#I:"@) {
        DslState { tasks: st.tasks.push(trim(t.skip("#I:"@.len() as int))), ..st }
    } else if starts_with(t, "#R["@) {
        DslState {
            refs: close_block(st),
            title: match find_from(t, "]:"@, 0) {
                Some(p) => trim(t.skip(p + "]:"@.len())),
                None => st.title,
            },
            body: if st.title.len() > 0 {
                Seq::empty()
            } else {
                st.body
            },
            ..st
        }
    } else {
        match cap {
            Some(p) => DslState { body: st.body.push(trim(p)), ..st },
            None => if st.title.len() > 0 {
                DslState { body: st.body.push(t), ..st }
            } else {
                st
            },
        }
    }
}

/// The state after reading `lines`, with `caps[k]` the capture of `lines[k]`.
pub open spec fn dsl_state(lines: Seq<Seq<char>>, caps: Seq<Option<Seq<char>>>) -> DslState
    decreases lines.len(),
{
    if lines.len() == 0 {
        DslState { system: Seq::empty(), tasks: Seq::empty(), refs: Seq::empty(), title: Seq::empty(), body: Seq::empty() }
    } else {
        dsl_step(dsl_state(lines.drop_last(), caps.drop_last()), lines.last(), caps[lines.len() - 1])
    }
}

/// Each item between a prefix and a suffix, concatenated.
pub open spec fn each_line(items: Seq<Seq<char>>, prefix: Seq<char>, suffix: Seq<char>) -> Seq<char>
    decreases items.len(),
{
    if items.len() == 0 {
        Seq::empty()
    } else {
        each_line(items.drop_last(), prefix, suffix) + prefix + items.last() + suffix
    }
}

/// The chat prompt: system instructions, then task instructions, then the
/// reference documents, each part present only when it has lines.
pub open spec fn dsl_prompt(lines: Seq<Seq<char>>, caps: Seq<Option<Seq<char>>>) -> Seq<char> {
    let st = dsl_state(lines, caps);
    let refs = close_block(st);
    (if st.system.len() > 0 {
        "【システム指示】\n"@ + each_line(st.system, ""@, "\n"@) + "\n"@
    } else {
        Seq::empty()
    }) + (if st.tasks.len() > 0 {
        "【タスク指示】\n"@ + "与えられた【参照ドキュメント】の内容のみに基づき、以下の命令に従って回答してください：\n"@
            + each_line(st.tasks, "- "@, "\n"@) + "\n"@
    } else {
        Seq::empty()
    }) + (if refs.len() > 0 {
        "【参照ドキュメント】\n"@ + each_line(refs, ""@, "\n\n"@)
    } else {
        Seq::empty()
    })
}

/// Character sequences of a list of strings.
pub open spec fn views(v: Seq<String>) -> Seq<Seq<char>> {
    v.map_values(|s: String| s@)
}

/// Character sequences of a list of optional strings.
pub open spec fn opt_views(v: Seq<Option<String>>) -> Seq<Option<Seq<char>>> {
    v.map_values(|o: Option<String>| opt_view(o))
}

/// `trim(t[from..])` as a string.
fn trimmed_tail(t: &Vec<char>, from: usize) -> (r: String)
    requires
        from <= t@.len(),
    ensures
        r@ == trim(t@.skip(from as int)),
{
    let tail = slice_chars(t.as_slice(), from, t.len());
    assert(tail@ =~= t@.skip(from as int));
    string_from_chars(trim_chars(tail.as_slice()).as_slice())
}

fn push_each(out: &mut String, items: &Vec<String>, prefix: &str, suffix: &str)
    ensures
        final(out)@ == old(out)@ + each_line(views(items@), prefix@, suffix@),
{
    let mut i: usize = 0;
    while i < items.len()
        invariant
            i <= items@.len(),
            out@ == old(out)@ + each_line(views(items@).take(i as int), prefix@, suffix@),
        decreases items@.len() - i,
    {
        assert(views(items@).take(i + 1).drop_last() =~= views(items@).take(i as int));
        out.push_str(prefix);
        out.push_str(items[i].as_str());
        out.push_str(suffix);
        i = i + 1;
        assert(out@ =~= old(out)@ + each_line(views(items@).take(i as int), prefix@, suffix@));
    }
    assert(views(items@).take(i as int) =~= views(items@));
}

fn block_text(title: &String, body: &Vec<String>) -> (r: String)
    ensures
        r@ == ref_block(title@, views(body@)),
{
    let mut r = owned("### ");
    r.push_str(title.as_str());
    r.push_str("\n");
    let b = join_strings(body, "\n");
    assert(views(body@) == body@.map_values(|s: String| s@));
    r.push_str(b.as_str());
    r
}

/// Builds the chat prompt from the DSL's lines and, for each line, what the
/// sub-node pattern captures in it.
pub fn assemble_dsl_prompt(lines: &Vec<String>, captures: &Vec<Option<String>>) -> (r: String)
    requires
        lines@.len() == captures@.len(),
    ensures
        r@ == dsl_prompt(views(lines@), opt_views(captures@)),
{
    let ghost ls = views(lines@);
    let ghost cs = opt_views(captures@);
    let mut system: Vec<String> = Vec::new();
    let mut tasks: Vec<String> = Vec::new();
    let mut refs: Vec<String> = Vec::new();
    let mut title = String::new();
    let mut body: Vec<String> = Vec::new();
    let mut i: usize = 0;
    while i < lines.len()
        invariant
            i <= lines@.len() == captures@.len(),
            ls == views(lines@),
            cs == opt_views(captures@),
            ({
                let st = dsl_state(ls.take(i as int), cs.take(i as int));
                &&& views(system@) == st.system
                &&& views(tasks@) == st.tasks
                &&& views(refs@) == st.refs
                &&& title@ == st.title
                &&& views(body@) == st.body
            }),
        decreases lines@.len() - i,
    {
        let ghost st = dsl_state(ls.take(i as int), cs.take(i as int));
        assert(ls.take(i + 1).drop_last() =~= ls.take(i as int));
        assert(cs.take(i + 1).drop_last() =~= cs.take(i as int));
        assert(ls.take(i + 1).last() == lines@[i as int]@);
        assert(cs.take(i + 1)[i as int] == opt_view(captures@[i as int]));
        let lc = chars_of(lines[i].as_str());
        let t = trim_chars(lc.as_slice());
        if t.len() == 0 {
        } else if chars_start_with(t.as_slice(), "#S:") {
            let n = chars_of("#S:").len();
            system.push(trimmed_tail(&t, n));
            assert(views(system@) =~= st.system.push(trim(t@.skip("#S:"@.len() as int))));
        } else if chars_start_with(t.as_slice(), "#I:") {
            let n = chars_of("#I:").len();
            tasks.push(trimmed_tail(&t, n));
            assert(views(tasks@) =~= st.tasks.push(trim(t@.skip("#I:"@.len() as int))));
        } else if chars_start_with(t.as_slice(), "#R[") {
            if !title.as_str().is_empty() {
                refs.push(block_text(&title, &body));
                assert(views(refs@) =~= close_block(st));
                body = Vec::new();
                assert(views(body@) =~= Seq::<Seq<char>>::empty());
            } else {
                assert(title@.len() == 0);
            }
            let pat = chars_of("]:");
            match find_chars(t.as_slice(), pat.as_slice(), 0) {
                Some(pos) => {
                    title = trimmed_tail(&t, pos + pat.len());
                },
                None => {},
            }
        } else {
            match &captures[i] {
                Some(p) => {
                    let pc = chars_of(p.as_str());
                    body.push(string_from_chars(trim_chars(pc.as_slice()).as_slice()));
                    assert(views(body@) =~= st.body.push(trim(p@)));
                },
                None => {
                    if !title.as_str().is_empty() {
                        body.push(string_from_chars(t.as_slice()));
                        assert(views(body@) =~= st.body.push(t@));
                    }
                },
            }
        }
        i = i + 1;
    }
    let ghost st = dsl_state(ls.take(i as int), cs.take(i as int));
    assert(ls.take(i as int) =~= ls);
    assert(cs.take(i as int) =~= cs);
    if !title.as_str().is_empty() {
        refs.push(block_text(&title, &body));
        assert(views(refs@) =~= close_block(st));
    }
    let mut prompt = String::new();
    if system.len() > 0 {
        prompt.push_str("【システム指示】\n");
        push_each(&mut prompt, &system, "", "\n");
        prompt.push_str("\n");
    }
    let ghost p1 = prompt@;
    if tasks.len() > 0 {
        prompt.push_str("【タスク指示】\n");
        prompt.push_str("与えられた【参照ドキュメント】の内容のみに基づき、以下の命令に従って回答してください：\n");
        push_each(&mut prompt, &tasks, "- ", "\n");
        prompt.push_str("\n");
    }
    let ghost p2 = prompt@;
    if refs.len() > 0 {
        prompt.push_str("【参照ドキュメント】\n");
        push_each(&mut prompt, &refs, "", "\n\n");
    }
    assert(prompt@ =~= dsl_prompt(ls, cs));
    prompt
}

/// Turns the compact prompt DSL back into a chat prompt: `#S:` lines become
/// system instructions, `#I:` lines task instructions, and each `#R[..]:`
/// line opens a reference document that collects the following sub-node
/// payloads and plain lines.
pub fn deserialize_dsl_to_prompt(dsl: &str) -> (r: String)
    ensures
        r@ == dsl_prompt(lines_of(dsl@), lines_of(dsl@).map_values(|l: Seq<char>| subnode_payload(l))),
{
    let lines = split_lines(dsl);
    let mut captures: Vec<Option<String>> = Vec::new();
    let mut i: usize = 0;
    while i < lines.len()
        invariant
            i <= lines@.len(),
            captures@.len() == i,
            forall|k: int| 0 <= k < i ==> opt_view(#[trigger] captures@[k]) == subnode_payload(lines@[k]@),
        decreases lines@.len() - i,
    {
        captures.push(capture_subnode(lines[i].as_str()));
        i = i + 1;
    }
    let r = assemble_dsl_prompt(&lines, &captures);
    assert(views(lines@) =~= lines_of(dsl@));
    assert(opt_views(captures@) =~= lines_of(dsl@).map_values(|l: Seq<char>| subnode_payload(l)));
    r
}

/// For every line whose trimmed form starts with `mark`, the trimmed text
/// after the mark; in line order.
pub open spec fn marked_lines(lines: Seq<Seq<char>>, mark: Seq<char>) -> Seq<Seq<char>>
    decreases lines.len(),
{
    if lines.len() == 0 {
        Seq::empty()
    } else {
        marked_lines(lines.drop_last(), mark) + if starts_with(trim(lines.last()), mark) {
            seq![trim(trim(lines.last()).skip(mark.len() as int))]
        } else {
            Seq::empty()
        }
    }
}

/// The system-instruction section of the prompt for the given lines.
pub open spec fn system_section(system: Seq<Seq<char>>) -> Seq<char> {
    if system.len() > 0 {
        "【システム指示】\n"@ + each_line(system, ""@, "\n"@) + "\n"@
    } else {
        Seq::empty()
    }
}

/// Every `#S:` line of the DSL gives one system instruction and every `#I:`
/// line one task instruction, its trimmed text, in line order; no other line
/// gives one.  The prompt opens with the system-instruction section holding
/// exactly those `#S:` texts, one per line.
pub proof fn lemma_dsl_instruction_lines(lines: Seq<Seq<char>>, caps: Seq<Option<Seq<char>>>)
    requires
        caps.len() == lines.len(),
    ensures
        dsl_state(lines, caps).system == marked_lines(lines, "#S:"@),
        dsl_state(lines, caps).tasks == marked_lines(lines, "#I:"@),
        dsl_prompt(lines, caps).take(system_section(marked_lines(lines, "#S:"@)).len() as int) == system_section(
            marked_lines(lines, "#S:"@),
        ),
    decreases lines.len(),
{
    reveal_strlit("#S:");
    reveal_strlit("#I:");
    reveal_strlit("#R[");
    if lines.len() > 0 {
        lemma_dsl_instruction_lines(lines.drop_last(), caps.drop_last());
        let t = trim(lines.last());
        if starts_with(t, "#S:"@) {
            assert(t.take(3)[1] == 'S');
            assert(t[1] == 'S');
            assert(!starts_with(t, "#I:"@));
        }
        if starts_with(t, "#I:"@) {
            assert(t.take(3)[1] == 'I');
            assert(t[1] == 'I');
            assert(!starts_with(t, "#S:"@));
        }
        if starts_with(t, "#R["@) {
            assert(t.take(3)[1] == 'R');
            assert(t[1] == 'R');
            assert(!starts_with(t, "#S:"@));
            assert(!starts_with(t, "#I:"@));
        }
        if t.len() == 0 {
            assert(!starts_with(t, "#S:"@));
            assert(!starts_with(t, "#I:"@));
        }
    }
    let st = dsl_state(lines, caps);
    let a = system_section(st.system);
    let p = dsl_prompt(lines, caps);
    assert(p.take(a.len() as int) =~= a);
}

} // verus!
