//! What the serving API decides: query keywords, which knowledge nodes a
//! keyword or vector search returns, the RAG prompt, the playground prompt and
//! the GPU memory report.
use vstd::prelude::*;
use crate::db::KnowledgeNode;
use crate::flat_ast::{calculate_fnv1a, fnv1a_str};
use crate::text::{
    chars_eq, chars_of, contains, decimal, is_whitespace, is_ws, normalize, normalized, owned,
    push_decimal, str_contains, string_from_chars, trim, trim_chars,
};

pub mod dsl_prompt;
pub mod status;

verus! {

/// Query parameters of the search endpoints.
pub struct SearchParams {
    pub q: Option<String>,
    pub limit: Option<usize>,
}

/// The answer of the RAG endpoint and the titles of the nodes it used.
pub struct RagSummaryResponse {
    pub answer: String,
    pub references: Vec<String>,
}

/// A list of strings as character sequences.
pub open spec fn strings_view(v: Seq<String>) -> Seq<Seq<char>> {
    v.map_values(|s: String| s@)
}

/// The elements of `s` that satisfy `p`, in order.
pub open spec fn select(s: Seq<KnowledgeNode>, p: spec_fn(KnowledgeNode) -> bool) -> Seq<KnowledgeNode>
    decreases s.len(),
{
    if s.len() == 0 {
        s
    } else {
        select(s.drop_last(), p) + if p(s.last()) {
            seq![s.last()]
        } else {
            Seq::empty()
        }
    }
}

/// The first `n` elements of `s` (all of them when there are fewer).
pub open spec fn first_n(s: Seq<KnowledgeNode>, n: int) -> Seq<KnowledgeNode> {
    if n < s.len() {
        s.take(n)
    } else {
        s
    }
}

// ---------------------------------------------------------------------------
// Title-only nodes
// ---------------------------------------------------------------------------

/// Characters that count when a title is compared with a body: neither
/// whitespace nor `#`.
pub open spec fn is_clean_char(c: char) -> bool {
    !is_ws(c) && c != '#'
}

/// `s` without whitespace and `#`.
pub open spec fn clean(s: Seq<char>) -> Seq<char>
    decreases s.len(),
{
    if s.len() == 0 {
        s
    } else {
        clean(s.drop_last()) + if is_clean_char(s.last()) {
            seq![s.last()]
        } else {
            Seq::empty()
        }
    }
}

/// A node whose body is empty, repeats its title, or is the summary placeholder.
pub open spec fn title_only(title: Seq<char>, content: Seq<char>) -> bool {
    let t = trim(content);
    t.len() == 0 || clean(title) == clean(t) || clean(t) == "AISummaryPlaceholder"@
}

fn clean_chars(cs: &[char]) -> (r: Vec<char>)
    ensures
        r@ == clean(cs@),
{
    let mut r: Vec<char> = Vec::new();
    let mut i: usize = 0;
    while i < cs.len()
        invariant
            i <= cs@.len(),
            r@ == clean(cs@.take(i as int)),
        decreases cs@.len() - i,
    {
        assert(cs@.take(i + 1).drop_last() =~= cs@.take(i as int));
        let c = cs[i];
        if !is_whitespace(c) && c != '#' {
            r.push(c);
        }
        i = i + 1;
        assert(r@ =~= clean(cs@.take(i as int)));
    }
    assert(cs@.take(i as int) =~= cs@);
    r
}

/// Whether a node carries nothing beyond its title: its body is empty after
/// trimming, or equals the title or `AISummaryPlaceholder` once whitespace and
/// `#` are removed from both.
pub fn is_empty_or_title_only(title: &str, content: &str) -> (r: bool)
    ensures
        r == title_only(title@, content@),
{
    let content_chars = chars_of(content);
    let trimmed = trim_chars(content_chars.as_slice());
    if trimmed.len() == 0 {
        return true;
    }
    let title_chars = chars_of(title);
    let clean_title = clean_chars(title_chars.as_slice());
    let clean_content = clean_chars(trimmed.as_slice());
    let placeholder = chars_of("AISummaryPlaceholder");
    chars_eq(clean_title.as_slice(), clean_content.as_slice()) || chars_eq(
        clean_content.as_slice(),
        placeholder.as_slice(),
    )
}

// ---------------------------------------------------------------------------
// Query keywords
// ---------------------------------------------------------------------------

/// ASCII letters and digits.
pub open spec fn is_ascii_alnum(c: char) -> bool {
    let u = c as u32;
    (48 <= u <= 57) || (65 <= u <= 90) || (97 <= u <= 122)
}

/// Scanning state after a prefix of the query: the finished words, the word
/// being built, and whether the last character was ASCII alphanumeric (`None`
/// at the start and after whitespace).
pub open spec fn scan_words(s: Seq<char>) -> (Seq<Seq<char>>, Seq<char>, Option<bool>)
    decreases s.len(),
{
    if s.len() == 0 {
        (Seq::empty(), Seq::empty(), None)
    } else {
        let st = scan_words(s.drop_last());
        let c = s.last();
        if is_ws(c) {
            (if st.1.len() > 0 { st.0.push(st.1) } else { st.0 }, Seq::empty(), None)
        } else {
            let a = is_ascii_alnum(c);
            let flush = st.2 is Some && st.2->0 != a && st.1.len() > 0;
            (
                if flush { st.0.push(st.1) } else { st.0 },
                if flush { seq![c] } else { st.1.push(c) },
                Some(a),
            )
        }
    }
}

/// The words of a query: runs of non-whitespace characters, split again where
/// ASCII letters and digits meet other characters.
pub open spec fn raw_words(s: Seq<char>) -> Seq<Seq<char>> {
    let st = scan_words(s);
    if st.1.len() > 0 {
        st.0.push(st.1)
    } else {
        st.0
    }
}

/// Words that carry no meaning in a query.
pub open spec fn is_stopword(w: Seq<char>) -> bool {
    ||| w == "about"@
    ||| w == "について"@
    ||| w == "とは"@
    ||| w == "の"@
    ||| w == "は"@
    ||| w == "が"@
    ||| w == "を"@
    ||| w == "に"@
    ||| w == "へ"@
    ||| w == "と"@
    ||| w == "で"@
    ||| w == "から"@
    ||| w == "より"@
    ||| w == "まで"@
}

/// The trimmed words that are neither empty nor stopwords, in order.
pub open spec fn keep_keywords(ws: Seq<Seq<char>>) -> Seq<Seq<char>>
    decreases ws.len(),
{
    if ws.len() == 0 {
        Seq::empty()
    } else {
        let rest = keep_keywords(ws.drop_last());
        let w = trim(ws.last());
        if w.len() > 0 && !is_stopword(w) {
            rest.push(w)
        } else {
            rest
        }
    }
}

/// The keywords of an already normalized query.
pub open spec fn keywords_of(s: Seq<char>) -> Seq<Seq<char>> {
    keep_keywords(raw_words(s))
}

fn is_stopword_chars(w: &[char]) -> (r: bool)
    ensures
        r == is_stopword(w@),
{
    chars_eq(w, chars_of("about").as_slice()) || chars_eq(w, chars_of("について").as_slice())
        || chars_eq(w, chars_of("とは").as_slice()) || chars_eq(w, chars_of("の").as_slice())
        || chars_eq(w, chars_of("は").as_slice()) || chars_eq(w, chars_of("が").as_slice())
        || chars_eq(w, chars_of("を").as_slice()) || chars_eq(w, chars_of("に").as_slice())
        || chars_eq(w, chars_of("へ").as_slice()) || chars_eq(w, chars_of("と").as_slice())
        || chars_eq(w, chars_of("で").as_slice()) || chars_eq(w, chars_of("から").as_slice())
        || chars_eq(w, chars_of("より").as_slice()) || chars_eq(w, chars_of("まで").as_slice())
}

fn is_ascii_alnum_char(c: char) -> (r: bool)
    ensures
        r == is_ascii_alnum(c),
{
    let u = c as u32;
    (48 <= u && u <= 57) || (65 <= u && u <= 90) || (97 <= u && u <= 122)
}

/// The character sequences of a list of character vectors.
pub open spec fn vecs_view(v: Seq<Vec<char>>) -> Seq<Seq<char>> {
    v.map_values(|w: Vec<char>| w@)
}

/// Splits an already normalized query into its keywords.
pub fn split_keywords(normalized_query: &str) -> (r: Vec<String>)
    ensures
        strings_view(r@) == keywords_of(normalized_query@),
{
    let cs = chars_of(normalized_query);
    let mut words: Vec<Vec<char>> = Vec::new();
    let mut cur: Vec<char> = Vec::new();
    let mut last: Option<bool> = None;
    let mut i: usize = 0;
    while i < cs.len()
        invariant
            i <= cs@.len(),
            vecs_view(words@) == scan_words(cs@.take(i as int)).0,
            cur@ == scan_words(cs@.take(i as int)).1,
            last == scan_words(cs@.take(i as int)).2,
        decreases cs@.len() - i,
    {
        assert(cs@.take(i + 1).drop_last() =~= cs@.take(i as int));
        let c = cs[i];
        if is_whitespace(c) {
            if cur.len() > 0 {
                words.push(cur);
                cur = Vec::new();
            }
            last = None;
        } else {
            let a = is_ascii_alnum_char(c);
            let flush = match last {
                Some(prev) => prev != a && cur.len() > 0,
                None => false,
            };
            if flush {
                words.push(cur);
                cur = Vec::new();
            }
            cur.push(c);
            last = Some(a);
        }
        i = i + 1;
        assert(vecs_view(words@) =~= scan_words(cs@.take(i as int)).0);
        assert(cur@ =~= scan_words(cs@.take(i as int)).1);
    }
    assert(cs@.take(i as int) =~= cs@);
    if cur.len() > 0 {
        words.push(cur);
    }
    let ghost raw = vecs_view(words@);
    assert(raw =~= raw_words(cs@));
    let mut out: Vec<String> = Vec::new();
    let mut k: usize = 0;
    while k < words.len()
        invariant
            k <= words@.len(),
            raw == vecs_view(words@),
            strings_view(out@) == keep_keywords(raw.take(k as int)),
        decreases words@.len() - k,
    {
        assert(raw.take(k + 1).drop_last() =~= raw.take(k as int));
        let w = trim_chars(words[k].as_slice());
        if w.len() > 0 && !is_stopword_chars(w.as_slice()) {
            out.push(string_from_chars(w.as_slice()));
        }
        k = k + 1;
        assert(strings_view(out@) =~= keep_keywords(raw.take(k as int)));
    }
    assert(raw.take(k as int) =~= raw);
    out
}

/// The keywords of a search query: the query is lowercased and
/// NFKC-normalized, split into words, and empty words and stopwords dropped.
pub fn clean_query_to_keywords(q: &str) -> (r: Vec<String>)
    ensures
        strings_view(r@) == keywords_of(normalized(q@)),
{
    let n = normalize(q);
    split_keywords(n.as_str())
}

// ---------------------------------------------------------------------------
// Keyword search
// ---------------------------------------------------------------------------

/// Every keyword occurs in the title or in the content.
pub open spec fn all_keywords_in(title: Seq<char>, content: Seq<char>, kws: Seq<Seq<char>>) -> bool {
    forall|k: int| 0 <= k < kws.len() ==> contains(title, #[trigger] kws[k]) || contains(content, kws[k])
}

/// Whether every keyword occurs in the normalized title or the normalized content.
pub fn contains_all_keywords(title_norm: &str, content_norm: &str, keywords: &Vec<String>) -> (r: bool)
    ensures
        r == all_keywords_in(title_norm@, content_norm@, strings_view(keywords@)),
{
    let ghost kws = strings_view(keywords@);
    let mut k: usize = 0;
    while k < keywords.len()
        invariant
            k <= keywords@.len(),
            kws == strings_view(keywords@),
            forall|j: int| 0 <= j < k ==> contains(title_norm@, #[trigger] kws[j]) || contains(content_norm@, kws[j]),
        decreases keywords@.len() - k,
    {
        let kw = keywords[k].as_str();
        if !str_contains(title_norm, kw) && !str_contains(content_norm, kw) {
            assert(kws[k as int] == keywords@[k as int]@);
            return false;
        }
        k = k + 1;
    }
    true
}

/// Whether a node's normalized title and content contain every keyword.
pub open spec fn keywords_match(n: KnowledgeNode, kws: Seq<Seq<char>>) -> bool {
    all_keywords_in(normalized(n.title@), normalized(n.content@), kws)
}

/// A keyword-search hit: a node with a non-empty body that matches every keyword.
pub open spec fn keyword_hit(n: KnowledgeNode, kws: Seq<Seq<char>>) -> bool {
    trim(n.content@).len() > 0 && keywords_match(n, kws)
}

/// A RAG context candidate: a node that is not title-only and matches every keyword.
pub open spec fn rag_hit(n: KnowledgeNode, kws: Seq<Seq<char>>) -> bool {
    !title_only(n.title@, n.content@) && keywords_match(n, kws)
}

fn node_matches(n: &KnowledgeNode, keywords: &Vec<String>) -> (r: bool)
    ensures
        r == keywords_match(*n, strings_view(keywords@)),
{
    let t = normalize(n.title.as_str());
    let c = normalize(n.content.as_str());
    contains_all_keywords(t.as_str(), c.as_str(), keywords)
}

fn has_body(n: &KnowledgeNode) -> (r: bool)
    ensures
        r == (trim(n.content@).len() > 0),
{
    let cs = chars_of(n.content.as_str());
    trim_chars(cs.as_slice()).len() > 0
}

/// The nodes with a non-empty body whose normalized title or content holds
/// every keyword, in input order.
pub fn keyword_search(nodes: &Vec<KnowledgeNode>, keywords: &Vec<String>) -> (r: Vec<KnowledgeNode>)
    ensures
        r@ == select(nodes@, |n: KnowledgeNode| keyword_hit(n, strings_view(keywords@))),
        r@ == search_hits(nodes@, strings_view(keywords@)),
{
    let ghost p = |n: KnowledgeNode| keyword_hit(n, strings_view(keywords@));
    let mut out: Vec<KnowledgeNode> = Vec::new();
    let mut i: usize = 0;
    while i < nodes.len()
        invariant
            i <= nodes@.len(),
            p == (|n: KnowledgeNode| keyword_hit(n, strings_view(keywords@))),
            out@ == select(nodes@.take(i as int), p),
        decreases nodes@.len() - i,
    {
        assert(nodes@.take(i + 1).drop_last() =~= nodes@.take(i as int));
        let n = &nodes[i];
        if has_body(n) && node_matches(n, keywords) {
            out.push(n.clone());
        }
        i = i + 1;
        assert(out@ =~= select(nodes@.take(i as int), p));
    }
    assert(nodes@.take(i as int) =~= nodes@);
    out
}

/// At most `limit` nodes that are not title-only and whose normalized title or
/// content holds every keyword, in input order.
pub fn rag_keyword_candidates(nodes: &Vec<KnowledgeNode>, keywords: &Vec<String>, limit: usize) -> (r: Vec<
    KnowledgeNode,
>)
    ensures
        r@ == first_n(select(nodes@, |n: KnowledgeNode| rag_hit(n, strings_view(keywords@))), limit as int),
{
    let ghost p = |n: KnowledgeNode| rag_hit(n, strings_view(keywords@));
    let mut out: Vec<KnowledgeNode> = Vec::new();
    let mut i: usize = 0;
    while i < nodes.len()
        invariant
            i <= nodes@.len(),
            p == (|n: KnowledgeNode| rag_hit(n, strings_view(keywords@))),
            out@ == select(nodes@.take(i as int), p),
        decreases nodes@.len() - i,
    {
        assert(nodes@.take(i + 1).drop_last() =~= nodes@.take(i as int));
        let n = &nodes[i];
        if !is_empty_or_title_only(n.title.as_str(), n.content.as_str()) && node_matches(n, keywords) {
            out.push(n.clone());
        }
        i = i + 1;
        assert(out@ =~= select(nodes@.take(i as int), p));
    }
    assert(nodes@.take(i as int) =~= nodes@);
    out.truncate(limit);
    out
}

// ---------------------------------------------------------------------------
// Vector-search hits
// ---------------------------------------------------------------------------

/// The first node whose context path hashes to `id`.
pub open spec fn node_for_id(nodes: Seq<KnowledgeNode>, id: u64) -> Option<KnowledgeNode>
    decreases nodes.len(),
{
    if nodes.len() == 0 {
        None
    } else if fnv1a_str(nodes[0].context_path@) == id {
        Some(nodes[0])
    } else {
        node_for_id(nodes.drop_first(), id)
    }
}

/// Whether a vector-search hit is shown: for the RAG context the node must not
/// be title-only, for the search list it only needs a non-empty body.
pub open spec fn semantic_keep(n: KnowledgeNode, for_rag: bool) -> bool {
    if for_rag {
        !title_only(n.title@, n.content@)
    } else {
        trim(n.content@).len() > 0
    }
}

/// The nodes behind a list of vector-search ids, in the order of the ids,
/// skipping ids with no node and nodes that are not shown.
pub open spec fn semantic_select(nodes: Seq<KnowledgeNode>, ids: Seq<u64>, for_rag: bool) -> Seq<KnowledgeNode>
    decreases ids.len(),
{
    if ids.len() == 0 {
        Seq::empty()
    } else {
        semantic_select(nodes, ids.drop_last(), for_rag) + match node_for_id(nodes, ids.last()) {
            Some(n) => if semantic_keep(n, for_rag) {
                seq![n]
            } else {
                Seq::empty()
            },
            None => Seq::empty(),
        }
    }
}

fn find_node_for_id(nodes: &Vec<KnowledgeNode>, id: u64) -> (r: Option<usize>)
    ensures
        match r {
            Some(i) => i < nodes@.len() && node_for_id(nodes@, id) == Some(nodes@[i as int]),
            None => node_for_id(nodes@, id) is None,
        },
{
    let mut i: usize = 0;
    assert(nodes@.skip(0) =~= nodes@);
    while i < nodes.len()
        invariant
            i <= nodes@.len(),
            node_for_id(nodes@, id) == node_for_id(nodes@.skip(i as int), id),
        decreases nodes@.len() - i,
    {
        assert(nodes@.skip(i as int)[0] == nodes@[i as int]);
        if calculate_fnv1a(nodes[i].context_path.as_str()) == id {
            return Some(i);
        }
        assert(nodes@.skip(i as int).drop_first() =~= nodes@.skip(i + 1));
        i = i + 1;
    }
    None
}

/// The nodes behind the ids a vector search returned (best first), at most
/// `limit` of them: each id is resolved to the first node whose context path
/// hashes to it, and a node is kept when it has a body (`for_rag` false) or is
/// not title-only (`for_rag` true).
pub fn semantic_hits(all_nodes: &Vec<KnowledgeNode>, ids: &Vec<u64>, for_rag: bool, limit: usize) -> (r: Vec<
    KnowledgeNode,
>)
    ensures
        r@ == first_n(semantic_select(all_nodes@, ids@, for_rag), limit as int),
{
    let mut out: Vec<KnowledgeNode> = Vec::new();
    let mut k: usize = 0;
    while k < ids.len()
        invariant
            k <= ids@.len(),
            out@ == semantic_select(all_nodes@, ids@.take(k as int), for_rag),
        decreases ids@.len() - k,
    {
        assert(ids@.take(k + 1).drop_last() =~= ids@.take(k as int));
        if let Some(j) = find_node_for_id(all_nodes, ids[k]) {
            let n = &all_nodes[j];
            let keep = if for_rag {
                !is_empty_or_title_only(n.title.as_str(), n.content.as_str())
            } else {
                has_body(n)
            };
            if keep {
                out.push(n.clone());
            }
        }
        k = k + 1;
        assert(out@ =~= semantic_select(all_nodes@, ids@.take(k as int), for_rag));
    }
    assert(ids@.take(k as int) =~= ids@);
    out.truncate(limit);
    out
}

// ---------------------------------------------------------------------------
// RAG answer
// ---------------------------------------------------------------------------

/// The answer to a blank question.
pub open spec fn blank_query_answer() -> Seq<char> {
    "質問を入力してくださいわ！🐾"@
}

/// The answer when no node matches.
pub open spec fn no_match_answer() -> Seq<char> {
    "該当するナレッジが見つかりませんでしたわ。別のキーワードでお試しください。"@
}

/// The context section of the `i`-th (from 0) reference node: its summary
/// when more than three nodes are used, its content otherwise.
pub open spec fn rag_section(i: nat, n: KnowledgeNode, use_summary: bool) -> Seq<char> {
    "【参考資料 "@ + decimal(i + 1) + "】\nタイトル: "@ + n.title@ + "\n"@ + (if use_summary {
        "概要"@
    } else {
        "内容"@
    }) + ":\n"@ + (if use_summary {
        n.summary@
    } else {
        n.content@
    }) + "\n\n"@
}

/// The sections of all reference nodes, in order.
pub open spec fn rag_context(nodes: Seq<KnowledgeNode>, use_summary: bool) -> Seq<char>
    decreases nodes.len(),
{
    if nodes.len() == 0 {
        Seq::empty()
    } else {
        rag_context(nodes.drop_last(), use_summary) + rag_section(
            (nodes.len() - 1) as nat,
            nodes.last(),
            use_summary,
        )
    }
}

/// The prompt that asks the model to answer `q` from the reference nodes.
pub open spec fn rag_prompt(q: Seq<char>, nodes: Seq<KnowledgeNode>) -> Seq<char> {
    "あなたはご主人様に仕えるメイド風アシスタントの「たぬきちゃん」です。丁寧で愛嬌のあるお嬢様メイド口調（〜ですわ、〜ですの、等）で、提供された【参考資料】に記載されている事実に基づいて、質問「"@
        + q + "」に親身に回答してください。\n\n--- 参考資料 ---\n"@ + rag_context(nodes, nodes.len() > 3)
}

/// What the RAG endpoint does once its reference nodes are chosen.
pub enum RagPlan {
    /// Answer at once, without asking a model.
    Respond(RagSummaryResponse),
    /// Ask the model with this prompt; the answer goes out with these references.
    Generate { prompt: String, references: Vec<String> },
}

/// The query and result limit that a search request asks for: `None` when
/// the query is missing or blank (the search answers with no results and
/// reads nothing); otherwise the query and the limit, 10 when none is given.
pub fn search_request(params: &SearchParams) -> (r: Option<(String, usize)>)
    ensures
        match r {
            None => match params.q {
                Some(q) => trim(q@).len() == 0,
                None => true,
            },
            Some((q, limit)) => {
                &&& params.q matches Some(p) && p@ == q@
                &&& trim(q@).len() > 0
                &&& limit == match params.limit {
                    Some(l) => l,
                    None => 10,
                }
            },
        },
{
    match &params.q {
        None => None,
        Some(q) => {
            let qc = chars_of(q.as_str());
            if trim_chars(qc.as_slice()).len() == 0 {
                None
            } else {
                let limit = match params.limit {
                    Some(l) => l,
                    None => 10,
                };
                Some((owned(q.as_str()), limit))
            }
        },
    }
}

/// The response to a blank question, when `q` is blank after trimming.
pub fn rag_blank_query(q: &str) -> (r: Option<RagSummaryResponse>)
    ensures
        match r {
            Some(resp) => trim(q@).len() == 0 && resp.answer@ == blank_query_answer() && resp.references@.len()
                == 0,
            None => trim(q@).len() > 0,
        },
{
    let qc = chars_of(q);
    if trim_chars(qc.as_slice()).len() == 0 {
        Some(RagSummaryResponse { answer: owned("質問を入力してくださいわ！🐾"), references: Vec::new() })
    } else {
        None
    }
}

fn push_rag_section(out: &mut String, i: usize, n: &KnowledgeNode, use_summary: bool)
    requires
        i < usize::MAX,
    ensures
        final(out)@ == old(out)@ + rag_section(i as nat, *n, use_summary),
{
    out.push_str("【参考資料 ");
    push_decimal(out, (i + 1) as u64);
    out.push_str("】\nタイトル: ");
    out.push_str(n.title.as_str());
    out.push_str("\n");
    if use_summary {
        out.push_str("概要");
    } else {
        out.push_str("内容");
    }
    out.push_str(":\n");
    if use_summary {
        out.push_str(n.summary.as_str());
    } else {
        out.push_str(n.content.as_str());
    }
    out.push_str("\n\n");
    assert(out@ =~= old(out)@ + rag_section(i as nat, *n, use_summary));
}

/// Decides the RAG answer for question `q` and the chosen reference nodes: the
/// no-match answer when there are none, otherwise the prompt that quotes every
/// node (its summary when more than three are used, its content otherwise)
/// together with their titles as references.
pub fn plan_rag_answer(q: &str, top_nodes: &Vec<KnowledgeNode>) -> (r: RagPlan)
    ensures
        match r {
            RagPlan::Respond(resp) => top_nodes@.len() == 0 && resp.answer@ == no_match_answer()
                && resp.references@.len() == 0,
            RagPlan::Generate { prompt, references } => {
                &&& top_nodes@.len() > 0
                &&& prompt@ == rag_prompt(q@, top_nodes@)
                &&& references@.len() == top_nodes@.len()
                &&& forall|k: int| 0 <= k < references@.len() ==> (#[trigger] references@[k])@ == top_nodes@[k].title@
            },
        },
{
    let limit = top_nodes.len();
    if limit == 0 {
        return RagPlan::Respond(
            RagSummaryResponse {
                answer: owned("該当するナレッジが見つかりませんでしたわ。別のキーワードでお試しください。"),
                references: Vec::new(),
            },
        );
    }
    let use_summary = limit > 3;
    let mut references: Vec<String> = Vec::new();
    let mut context = String::new();
    let mut i: usize = 0;
    while i < limit
        invariant
            i <= limit == top_nodes@.len(),
            use_summary == (limit > 3),
            context@ == rag_context(top_nodes@.take(i as int), use_summary),
            references@.len() == i,
            forall|k: int| 0 <= k < i ==> (#[trigger] references@[k])@ == top_nodes@[k].title@,
        decreases limit - i,
    {
        assert(top_nodes@.take(i + 1).drop_last() =~= top_nodes@.take(i as int));
        push_rag_section(&mut context, i, &top_nodes[i], use_summary);
        references.push(top_nodes[i].title.clone());
        i = i + 1;
    }
    assert(top_nodes@.take(i as int) =~= top_nodes@);
    let mut prompt = owned(
        "あなたはご主人様に仕えるメイド風アシスタントの「たぬきちゃん」です。丁寧で愛嬌のあるお嬢様メイド口調（〜ですわ、〜ですの、等）で、提供された【参考資料】に記載されている事実に基づいて、質問「",
    );
    prompt.push_str(q);
    prompt.push_str("」に親身に回答してください。\n\n--- 参考資料 ---\n");
    prompt.push_str(context.as_str());
    RagPlan::Generate { prompt, references }
}

/// The selection keeps every element that satisfies `p`, and only elements of
/// `s` that satisfy it.
pub proof fn lemma_select_members(s: Seq<KnowledgeNode>, p: spec_fn(KnowledgeNode) -> bool)
    ensures
        forall|k: int| 0 <= k < s.len() && p(s[k]) ==> #[trigger] select(s, p).contains(s[k]),
        forall|x: KnowledgeNode| #[trigger] select(s, p).contains(x) ==> p(x) && s.contains(x),
        select(s, p).len() <= s.len(),
    decreases s.len(),
{
    if s.len() > 0 {
        let d = s.drop_last();
        lemma_select_members(d, p);
        let r = select(s, p);
        let rd = select(d, p);
        let tail = if p(s.last()) { seq![s.last()] } else { Seq::<KnowledgeNode>::empty() };
        assert(r == rd + tail);
        assert forall|k: int| 0 <= k < s.len() && p(s[k]) implies #[trigger] r.contains(s[k]) by {
            if k < d.len() {
                assert(d[k] == s[k]);
                assert(rd.contains(d[k]));
                let j = choose|j: int| 0 <= j < rd.len() && rd[j] == d[k];
                assert(r[j] == rd[j]);
            } else {
                assert(r[rd.len() as int] == s.last());
            }
        }
        assert forall|x: KnowledgeNode| #[trigger] r.contains(x) implies p(x) && s.contains(x) by {
            let j = choose|j: int| 0 <= j < r.len() && r[j] == x;
            if j < rd.len() {
                assert(rd[j] == x);
                assert(rd.contains(x));
                let m = choose|m: int| 0 <= m < d.len() && d[m] == x;
                assert(s[m] == x);
            } else {
                assert(x == s.last());
                assert(s[s.len() - 1] == x);
            }
        }
    }
}

/// The result of a keyword search (see `keyword_search`).
pub open spec fn search_hits(nodes: Seq<KnowledgeNode>, kws: Seq<Seq<char>>) -> Seq<KnowledgeNode> {
    select(nodes, |n: KnowledgeNode| keyword_hit(n, kws))
}

/// Keyword search finds exactly the nodes whose trimmed body is not empty and
/// whose normalized title or normalized content holds every keyword: a node
/// whose body only repeats its title is still found (only an empty body is
/// left out of the search list).
pub proof fn lemma_keyword_search_finds(nodes: Seq<KnowledgeNode>, kws: Seq<Seq<char>>)
    ensures
        forall|k: int|
            0 <= k < nodes.len() && trim(nodes[k].content@).len() > 0 && all_keywords_in(
                normalized(nodes[k].title@),
                normalized(nodes[k].content@),
                kws,
            ) ==> #[trigger] search_hits(nodes, kws).contains(nodes[k]),
        forall|x: KnowledgeNode| #[trigger] search_hits(nodes, kws).contains(x) ==> {
            &&& nodes.contains(x)
            &&& trim(x.content@).len() > 0
            &&& all_keywords_in(normalized(x.title@), normalized(x.content@), kws)
        },
{
    let p = |n: KnowledgeNode| keyword_hit(n, kws);
    lemma_select_members(nodes, p);
}

} // verus!
