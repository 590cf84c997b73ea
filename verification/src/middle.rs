//! The summary phase of the compiler: which nodes are summarized together,
//! the prompts sent to the model and how its replies are read.
use vstd::prelude::*;
use crate::db::KnowledgeNode;
use crate::serving::select;
use crate::text::{
    chars_of, chars_start_with, find_chars, find_from, join, last_occurrence, occurs_at, owned, rfind_chars,
    slice_chars, starts_with, lemma_find_from_some, lemma_find_from_none, str_eq, string_from_chars, trim, trim_chars,
};

verus! {

/// The prompt that asks the model for a node's metadata.
pub open spec fn metadata_prompt_text(content: Seq<char>) -> Seq<char> {
    "### Task: Extract metadata from markdown node.\n### Format: JSON {\"summary\": \"one sentence\", \"tags\": [\"tag1\", \"tag2\"]}\n\n### Content:\n"@
        + content + "\n\n### JSON Output:\n"@
}

/// The prompt that asks the model for the metadata (a one-sentence summary
/// and tags, as JSON) of a node's content.
pub fn metadata_prompt(content: &str) -> (r: String)
    ensures
        r@ == metadata_prompt_text(content@),
{
    let mut r = owned(
        "### Task: Extract metadata from markdown node.\n### Format: JSON {\"summary\": \"one sentence\", \"tags\": [\"tag1\", \"tag2\"]}\n\n### Content:\n",
    );
    r.push_str(content);
    r.push_str("\n\n### JSON Output:\n");
    r
}

/// Whether some node has the context path `p`.
pub open spec fn has_path(nodes: Seq<KnowledgeNode>, p: Seq<char>) -> bool {
    exists|k: int| 0 <= k < nodes.len() && (#[trigger] nodes[k]).context_path@ == p
}

/// The nodes with context path `p`, in their order.
pub open spec fn group_of(nodes: Seq<KnowledgeNode>, p: Seq<char>) -> Seq<KnowledgeNode> {
    select(nodes, |n: KnowledgeNode| n.context_path@ == p)
}

/// Whether some key equals `p`.
pub open spec fn has_key_spec(keys: Seq<String>, p: Seq<char>) -> bool {
    exists|g: int| 0 <= g < keys.len() && (#[trigger] keys[g])@ == p
}

/// The keys of a list of groups.
pub open spec fn group_keys(groups: Seq<(String, Vec<KnowledgeNode>)>) -> Seq<String> {
    groups.map_values(|e: (String, Vec<KnowledgeNode>)| e.0)
}

/// A grouping of `nodes` by context path: every group holds exactly the
/// nodes of its path in their order, no path has two groups, and every
/// node's path has a group.
pub open spec fn grouped_by_context(nodes: Seq<KnowledgeNode>, groups: Seq<(String, Vec<KnowledgeNode>)>) -> bool {
    &&& forall|g: int| 0 <= g < groups.len() ==> (#[trigger] groups[g]).1@ == group_of(nodes, groups[g].0@)
    &&& forall|g: int| 0 <= g < groups.len() ==> has_path(nodes, (#[trigger] groups[g]).0@)
    &&& forall|g: int, h: int| 0 <= g < h < groups.len() ==> (#[trigger] groups[g]).0@ != (#[trigger] groups[h]).0@
    &&& forall|k: int| 0 <= k < nodes.len() ==> has_key_spec(group_keys(groups), (#[trigger] nodes[k]).context_path@)
}

proof fn lemma_has_key_push(keys: Seq<String>, x: String, p: Seq<char>)
    requires
        has_key_spec(keys, p),
    ensures
        has_key_spec(keys.push(x), p),
{
    let g = choose|g: int| 0 <= g < keys.len() && (#[trigger] keys[g])@ == p;
    assert(keys.push(x)[g] == keys[g]);
}

fn has_key(keys: &Vec<String>, p: &str) -> (r: bool)
    ensures
        r == has_key_spec(keys@, p@),
{
    let mut k: usize = 0;
    while k < keys.len()
        invariant
            k <= keys@.len(),
            forall|j: int| 0 <= j < k ==> (#[trigger] keys@[j])@ != p@,
        decreases keys@.len() - k,
    {
        if str_eq(keys[k].as_str(), p) {
            return true;
        }
        k = k + 1;
    }
    false
}

fn nodes_with_path(nodes: &Vec<KnowledgeNode>, p: &str) -> (r: Vec<KnowledgeNode>)
    ensures
        r@ == group_of(nodes@, p@),
{
    let ghost pred = |n: KnowledgeNode| n.context_path@ == p@;
    let mut out: Vec<KnowledgeNode> = Vec::new();
    let mut i: usize = 0;
    while i < nodes.len()
        invariant
            i <= nodes@.len(),
            pred == (|n: KnowledgeNode| n.context_path@ == p@),
            out@ == select(nodes@.take(i as int), pred),
        decreases nodes@.len() - i,
    {
        assert(nodes@.take(i + 1).drop_last() =~= nodes@.take(i as int));
        if str_eq(nodes[i].context_path.as_str(), p) {
            out.push(nodes[i].clone());
        }
        i = i + 1;
        assert(out@ =~= select(nodes@.take(i as int), pred));
    }
    assert(nodes@.take(i as int) =~= nodes@);
    out
}

fn distinct_paths(nodes: &Vec<KnowledgeNode>) -> (keys: Vec<String>)
    ensures
        forall|g: int| 0 <= g < keys@.len() ==> has_path(nodes@, (#[trigger] keys@[g])@),
        forall|g: int, h: int| 0 <= g < h < keys@.len() ==> (#[trigger] keys@[g])@ != (#[trigger] keys@[h])@,
        forall|k: int| 0 <= k < nodes@.len() ==> has_key_spec(keys@, (#[trigger] nodes@[k]).context_path@),
{
    let mut keys: Vec<String> = Vec::new();
    let mut i: usize = 0;
    while i < nodes.len()
        invariant
            i <= nodes@.len(),
            forall|g: int| 0 <= g < keys@.len() ==> has_path(nodes@, (#[trigger] keys@[g])@),
            forall|g: int, h: int| 0 <= g < h < keys@.len() ==> (#[trigger] keys@[g])@ != (#[trigger] keys@[h])@,
            forall|k: int| 0 <= k < i ==> has_key_spec(keys@, (#[trigger] nodes@[k]).context_path@),
        decreases nodes@.len() - i,
    {
        let p = nodes[i].context_path.as_str();
        if !has_key(&keys, p) {
            let ghost old_keys = keys@;
            let x = nodes[i].context_path.clone();
            keys.push(x);
            proof {
                assert forall|k: int| 0 <= k < i implies has_key_spec(keys@, (#[trigger] nodes@[k]).context_path@) by {
                    lemma_has_key_push(old_keys, x, nodes@[k].context_path@);
                }
                assert(keys@[keys@.len() - 1]@ == nodes@[i as int].context_path@);
                assert(has_path(nodes@, keys@[keys@.len() - 1]@));
            }
        }
        i = i + 1;
    }
    keys
}

/// Groups the nodes by context path, one group per distinct path.
pub fn group_by_context(nodes: &Vec<KnowledgeNode>) -> (r: Vec<(String, Vec<KnowledgeNode>)>)
    ensures
        grouped_by_context(nodes@, r@),
{
    let keys = distinct_paths(nodes);
    let mut groups: Vec<(String, Vec<KnowledgeNode>)> = Vec::new();
    let mut g: usize = 0;
    while g < keys.len()
        invariant
            g <= keys@.len(),
            groups@.len() == g,
            forall|x: int| 0 <= x < g ==> (#[trigger] groups@[x]).0 == keys@[x],
            forall|x: int| 0 <= x < g ==> (#[trigger] groups@[x]).1@ == group_of(nodes@, keys@[x]@),
        decreases keys@.len() - g,
    {
        let members = nodes_with_path(nodes, keys[g].as_str());
        groups.push((keys[g].clone(), members));
        g = g + 1;
    }
    proof {
        assert(group_keys(groups@) =~= keys@);
        assert forall|x: int, y: int| 0 <= x < y < groups@.len() implies (#[trigger] groups@[x]).0@ != (#[trigger] groups@[y]).0@ by {
            assert(groups@[x].0 == keys@[x]);
            assert(groups@[y].0 == keys@[y]);
        }
        assert forall|x: int| 0 <= x < groups@.len() implies has_path(nodes@, (#[trigger] groups@[x]).0@) by {
            assert(groups@[x].0 == keys@[x]);
        }
    }
    groups
}

/// One node's entry in a cluster prompt.
pub open spec fn cluster_item(n: KnowledgeNode) -> Seq<char> {
    "- Title: "@ + n.title@ + "\n  Content: "@ + n.content@
}

/// The prompt that asks the model to summarize the nodes of one context path.
pub open spec fn cluster_prompt_text(path: Seq<char>, group: Seq<KnowledgeNode>) -> Seq<char> {
    "Before providing the final answer, please think step-by-step and output your logical process within <thinking> tags.\nThese are information snippets under the context path '"@
        + path
        + "'. Summarize them into a coherent 'Knowledge Cluster'. Provide a clear title and a summary that explains how these items relate to each other.\n\nNodes:\n"@
        + join(group.map_values(|n: KnowledgeNode| cluster_item(n)), "\n\n"@)
}

/// The prompt that asks the model to summarize the nodes of one context
/// path into a titled knowledge cluster, thinking inside `<thinking>` tags first.
pub fn cluster_prompt(path: &str, group: &Vec<KnowledgeNode>) -> (r: String)
    ensures
        r@ == cluster_prompt_text(path@, group@),
{
    let ghost items = group@.map_values(|n: KnowledgeNode| cluster_item(n));
    let mut combined = String::new();
    let mut i: usize = 0;
    while i < group.len()
        invariant
            i <= group@.len(),
            items == group@.map_values(|n: KnowledgeNode| cluster_item(n)),
            combined@ == join(items.take(i as int), "\n\n"@),
        decreases group@.len() - i,
    {
        let ghost before = combined@;
        if i > 0 {
            combined.push_str("\n\n");
        }
        combined.push_str("- Title: ");
        combined.push_str(group[i].title.as_str());
        combined.push_str("\n  Content: ");
        combined.push_str(group[i].content.as_str());
        proof {
            assert(items.take(i + 1).drop_last() =~= items.take(i as int));
            if i == 0 {
                assert(items.take(1)[0] == items[0]);
                assert(combined@ =~= join(items.take(1), "\n\n"@));
            } else {
                assert(combined@ =~= before + "\n\n"@ + items[i as int]);
            }
        }
        i = i + 1;
    }
    assert(items.take(i as int) =~= items);
    let mut r = owned(
        "Before providing the final answer, please think step-by-step and output your logical process within <thinking> tags.\nThese are information snippets under the context path '",
    );
    r.push_str(path);
    r.push_str(
        "'. Summarize them into a coherent 'Knowledge Cluster'. Provide a clear title and a summary that explains how these items relate to each other.\n\nNodes:\n",
    );
    r.push_str(combined.as_str());
    r
}

/// `s` without any number of leading copies of `pat` (as `str::trim_start_matches`).
pub open spec fn strip_prefixes(s: Seq<char>, pat: Seq<char>) -> Seq<char>
    decreases s.len(),
{
    if pat.len() > 0 && starts_with(s, pat) {
        strip_prefixes(s.skip(pat.len() as int), pat)
    } else {
        s
    }
}

/// The model's reply after its closing `</thinking>` tag (trimmed), or the
/// whole reply when there is no such tag.
pub open spec fn without_thinking(reply: Seq<char>) -> Seq<char> {
    match last_occurrence(reply, "</thinking>"@) {
        Some(p) => trim(reply.skip(p + "</thinking>"@.len())),
        None => reply,
    }
}

/// The cluster title and summary read from a model reply: the first line
/// (trimmed, without leading `Title:`) and the trimmed rest; a one-line reply
/// is all summary, under the title `Cluster: <path>`.
pub open spec fn cluster_reply(path: Seq<char>, reply: Seq<char>) -> (Seq<char>, Seq<char>) {
    let clean = without_thinking(reply);
    match find_from(clean, seq!['\n'], 0) {
        Some(i) => (trim(strip_prefixes(trim(clean.take(i)), "Title:"@)), trim(clean.skip(i + 1))),
        None => ("Cluster: "@ + path, clean),
    }
}

fn strip_prefixes_chars(cs: Vec<char>, pat: &str) -> (r: Vec<char>)
    ensures
        r@ == strip_prefixes(cs@, pat@),
    decreases cs@.len(),
{
    let pc = chars_of(pat);
    if pc.len() > 0 && chars_start_with(cs.as_slice(), pat) {
        let rest = slice_chars(cs.as_slice(), pc.len(), cs.len());
        assert(rest@ =~= cs@.skip(pat@.len() as int));
        strip_prefixes_chars(rest, pat)
    } else {
        cs
    }
}

fn strip_thinking(rc: Vec<char>) -> (r: Vec<char>)
    ensures
        r@ == without_thinking(rc@),
{
    let tag = chars_of("</thinking>");
    let ghost lo = last_occurrence(rc@, "</thinking>"@);
    match rfind_chars(rc.as_slice(), tag.as_slice()) {
        Some(p) => {
            assert(lo == Some(p as int));
            let n = rc.len();
            assert(p + tag@.len() <= n);
            let tail = slice_chars(rc.as_slice(), p + tag.len(), rc.len());
            assert(tail@ =~= rc@.skip(p + "</thinking>"@.len()));
            trim_chars(tail.as_slice())
        },
        None => rc,
    }
}

/// Reads the cluster title and summary from the model's reply to a cluster prompt.
pub fn parse_cluster_reply(path: &str, reply: &str) -> (r: (String, String))
    ensures
        r.0@ == cluster_reply(path@, reply@).0,
        r.1@ == cluster_reply(path@, reply@).1,
{
    let clean = strip_thinking(chars_of(reply));
    let mut nl: Vec<char> = Vec::new();
    nl.push('\n');
    assert(nl@ =~= seq!['\n']);
    match find_chars(clean.as_slice(), nl.as_slice(), 0) {
        Some(i) => {
            let n = clean.len();
            assert(i + 1 <= n);
            let head = slice_chars(clean.as_slice(), 0, i);
            assert(head@ =~= clean@.take(i as int));
            let title = strip_prefixes_chars(trim_chars(head.as_slice()), "Title:");
            let rest = slice_chars(clean.as_slice(), i + 1, clean.len());
            assert(rest@ =~= clean@.skip(i + 1));
            (
                string_from_chars(trim_chars(title.as_slice()).as_slice()),
                string_from_chars(trim_chars(rest.as_slice()).as_slice()),
            )
        },
        None => {
            let mut t = owned("Cluster: ");
            t.push_str(path);
            (t, string_from_chars(clean.as_slice()))
        },
    }
}

/// How a cluster reply splits: when the reply (after any `</thinking>`
/// section) has its first newline at `i`, the title is the first line,
/// trimmed and without leading `Title:`, and the summary is everything after
/// that newline, trimmed: all the remaining lines, whatever newlines they hold.
pub proof fn lemma_cluster_reply_splits_at_first_newline(path: Seq<char>, reply: Seq<char>, i: int)
    requires
        0 <= i < without_thinking(reply).len(),
        without_thinking(reply)[i] == '\n',
        forall|j: int| 0 <= j < i ==> without_thinking(reply)[j] != '\n',
    ensures
        cluster_reply(path, reply).0 == trim(strip_prefixes(trim(without_thinking(reply).take(i)), "Title:"@)),
        cluster_reply(path, reply).1 == trim(without_thinking(reply).skip(i + 1)),
{
    let clean = without_thinking(reply);
    let nl = seq!['\n'];
    assert(clean.subrange(i, i + 1) =~= nl);
    assert forall|j: int| 0 <= j < i implies !#[trigger] occurs_at(clean, nl, j) by {
        if occurs_at(clean, nl, j) {
            assert(clean.subrange(j, j + 1)[0] == clean[j]);
        }
    }
    lemma_find_from_some(clean, nl, 0, i);
}

/// A reply (after any `</thinking>` section) without a newline is all
/// summary, under the title `Cluster: <path>`.
pub proof fn lemma_cluster_reply_one_line(path: Seq<char>, reply: Seq<char>)
    requires
        forall|j: int| 0 <= j < without_thinking(reply).len() ==> without_thinking(reply)[j] != '\n',
    ensures
        cluster_reply(path, reply) == ("Cluster: "@ + path, without_thinking(reply)),
{
    let clean = without_thinking(reply);
    let nl = seq!['\n'];
    assert forall|j: int| 0 <= j implies !#[trigger] occurs_at(clean, nl, j) by {
        if occurs_at(clean, nl, j) {
            assert(clean.subrange(j, j + 1)[0] == clean[j]);
        }
    }
    lemma_find_from_none(clean, nl, 0);
}

} // verus!
