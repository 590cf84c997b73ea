//! The pruning playground: builds a Flat-AST from a request, prunes it and
//! reports what happened to every document node.
use vstd::prelude::*;
use vstd::utf8::encode_utf8;
use crate::flat_ast::{
    active_tokens, all_nodes_wf, pushed_header, calculate_fnv1a, dsl_line, fnv1a_str, lemma_prune_only_deactivates,
    lemma_prune_within_budget, lemma_push_flags, lemma_deactivated_bits, node_wf, pruned, push_flags, render_active, tokens_where,
    FlatAST, FlatASTHeader, FlatNode,
};
use crate::text::{chars_of, owned, slice_chars, string_from_chars};

verus! {

/// One document node of a playground request.
pub struct PlaygroundNodeInput {
    pub title: String,
    pub body: String,
    pub tier: u8,
}

/// A playground request: the protected instructions, a token budget and the document nodes.
pub struct PlaygroundPruneRequest {
    pub system_constraint: String,
    pub task_instruction: String,
    pub target_limit: u32,
    pub nodes: Vec<PlaygroundNodeInput>,
}

/// The state of one document node after pruning.
pub struct PlaygroundNodeOutput {
    pub node_id: u64,
    pub title: String,
    pub body: String,
    pub tier: u8,
    pub tokens: u32,
    pub is_active: bool,
}

/// Token counts before and after pruning, the rendered prompt and the node states.
pub struct PlaygroundPruneResponse {
    pub initial_tokens: u32,
    pub pruned_tokens: u32,
    pub final_tokens: u32,
    pub dsl_output: String,
    pub nodes: Vec<PlaygroundNodeOutput>,
}

/// The payload of a document node: its title, a newline, its body.
pub open spec fn node_payload(n: PlaygroundNodeInput) -> Seq<char> {
    n.title@ + "\n"@ + n.body@
}

/// The document node `n` as a sub-node of the playground document.
pub open spec fn playground_sub_node(n: PlaygroundNodeInput) -> FlatNode {
    (pushed_header(fnv1a_str(node_payload(n)), 2, n.tier, true, 0, node_payload(n)), node_payload(n))
}

/// The nodes the playground builds: the system constraint, the task
/// instruction, a protected parent reference node, then one Reference
/// sub-node per document node with its tier as priority.
pub open spec fn playground_nodes(req: PlaygroundPruneRequest) -> Seq<FlatNode> {
    let sys = req.system_constraint@;
    let inst = req.task_instruction@;
    let parent_text = "Playground Document Context"@;
    seq![
        (pushed_header(fnv1a_str(sys), 0, 0, false, 0, sys), sys),
        (pushed_header(fnv1a_str(inst), 1, 0, false, 0, inst), inst),
        (pushed_header(fnv1a_str("PlaygroundDocument"@), 2, 0, false, req.nodes@.len() as u16, parent_text), parent_text),
    ] + req.nodes@.map_values(|n: PlaygroundNodeInput| playground_sub_node(n))
}

/// Sum of the UTF-8 lengths of all payloads of a request.
pub open spec fn request_bytes(req: PlaygroundPruneRequest) -> int {
    encode_utf8(req.system_constraint@).len() + encode_utf8(req.task_instruction@).len() + encode_utf8(
        "Playground Document Context"@,
    ).len() + node_bytes(req.nodes@)
}

pub open spec fn node_bytes(nodes: Seq<PlaygroundNodeInput>) -> int
    decreases nodes.len(),
{
    if nodes.len() == 0 {
        0
    } else {
        node_bytes(nodes.drop_last()) + encode_utf8(node_payload(nodes.last())).len()
    }
}

/// The text before the first newline, and the text after it ("" when there is none).
pub open spec fn split_first_line(s: Seq<char>) -> (Seq<char>, Seq<char>) {
    if exists|i: int| 0 <= i < s.len() && s[i] == '\n' {
        let i = choose|i: int| 0 <= i < s.len() && s[i] == '\n' && forall|j: int| 0 <= j < i ==> s[j] != '\n';
        (s.take(i), s.skip(i + 1))
    } else {
        (s, Seq::empty())
    }
}

/// The reported state of a pruned sub-node.
pub open spec fn output_matches(o: PlaygroundNodeOutput, n: FlatNode) -> bool {
    &&& o.node_id == n.0.node_id
    &&& o.tier == n.0.priority
    &&& o.tokens == n.0.payload_len
    &&& o.is_active == n.0.active()
    &&& o.title@ == split_first_line(n.1).0
    &&& o.body@ == split_first_line(n.1).1
}

proof fn lemma_tokens_bounded(ns: Seq<FlatNode>, p: spec_fn(int) -> bool, m: int)
    requires
        0 <= m <= ns.len(),
        all_nodes_wf(ns),
    ensures
        tokens_where(ns, p, m) <= payload_bytes(ns.take(m)),
    decreases m,
{
    if m > 0 {
        lemma_tokens_bounded(ns, p, m - 1);
        assert(ns.take(m).drop_last() =~= ns.take(m - 1));
        assert(node_wf(ns[m - 1]));
    }
}

/// Sum of the payload lengths of all nodes.
pub open spec fn payload_bytes(ns: Seq<FlatNode>) -> int
    decreases ns.len(),
{
    if ns.len() == 0 {
        0
    } else {
        payload_bytes(ns.drop_last()) + ns.last().0.payload_len
    }
}

/// Splits `s` at its first newline.
fn split_first_line_exec(s: &str) -> (r: (String, String))
    ensures
        r.0@ == split_first_line(s@).0,
        r.1@ == split_first_line(s@).1,
{
    let cs = chars_of(s);
    let mut i: usize = 0;
    while i < cs.len() && cs[i] != '\n'
        invariant
            i <= cs@.len(),
            cs@ == s@,
            forall|j: int| 0 <= j < i ==> cs@[j] != '\n',
        decreases cs@.len() - i,
    {
        i = i + 1;
    }
    if i < cs.len() {
        let ghost k = choose|k: int| 0 <= k < cs@.len() && cs@[k] == '\n' && forall|j: int| 0 <= j < k ==> cs@[j] != '\n';
        assert(k == i) by {
            if k < i {
                assert(cs@[k] != '\n');
            } else if k > i {
                assert(cs@[i as int] != '\n');
            }
        }
        let head = slice_chars(cs.as_slice(), 0, i);
        let tail = slice_chars(cs.as_slice(), i + 1, cs.len());
        assert(head@ =~= cs@.take(i as int));
        assert(tail@ =~= cs@.skip(i + 1));
        (string_from_chars(head.as_slice()), string_from_chars(tail.as_slice()))
    } else {
        (owned(s), String::new())
    }
}

/// Builds the playground Flat-AST, prunes it to the request's limit, and
/// reports the token counts, the rendered DSL and every document node's state.
pub fn playground_prune(req: &PlaygroundPruneRequest) -> (resp: PlaygroundPruneResponse)
    requires
        request_bytes(*req) <= u32::MAX,
    ensures
        ({
            let before = playground_nodes(*req);
            let after = pruned(before, req.target_limit);
            &&& resp.initial_tokens == active_tokens(before)
            &&& resp.final_tokens == active_tokens(after)
            &&& resp.pruned_tokens == active_tokens(before) - active_tokens(after)
            &&& resp.dsl_output@ == render_active(after, |n: FlatNode| dsl_line(n))
            &&& resp.nodes@.len() == req.nodes@.len()
            &&& forall|j: int| 0 <= j < req.nodes@.len() ==> output_matches(#[trigger] resp.nodes@[j], after[3 + j])
        }),
{
    let mut ast = FlatAST::new();
    proof {
        lemma_node_bytes_prefix(req.nodes@, 0);
        assert(req.nodes@.take(0) =~= Seq::<PlaygroundNodeInput>::empty());
    }
    let sys_id = calculate_fnv1a(req.system_constraint.as_str());
    ast.push_node(sys_id, 0, 0, false, 0, req.system_constraint.as_str());
    let inst_id = calculate_fnv1a(req.task_instruction.as_str());
    ast.push_node(inst_id, 1, 0, false, 0, req.task_instruction.as_str());
    let parent_id = calculate_fnv1a("PlaygroundDocument");
    let child_count = #[verifier::truncate] (req.nodes.len() as u16);
    ast.push_node(parent_id, 2, 0, false, child_count, "Playground Document Context");

    let ghost head = ast@;
    proof {
        assert(head.drop_last().drop_last().drop_last() =~= Seq::<FlatNode>::empty());
        assert(payload_bytes(head) == request_bytes(*req) - node_bytes(req.nodes@)) by {
            reveal_with_fuel(payload_bytes, 4);
        }
        assert(ast@ =~= head + req.nodes@.take(0).map_values(|n: PlaygroundNodeInput| playground_sub_node(n)));
    }
    let mut i: usize = 0;
    while i < req.nodes.len()
        invariant
            ast.wf(),
            i <= req.nodes@.len(),
            head.len() == 3,
            request_bytes(*req) <= u32::MAX,
            ast@ == head + req.nodes@.take(i as int).map_values(|n: PlaygroundNodeInput| playground_sub_node(n)),
            payload_bytes(ast@) == payload_bytes(head) + node_bytes(req.nodes@.take(i as int)),
            payload_bytes(head) == request_bytes(*req) - node_bytes(req.nodes@),
            head[0] == playground_nodes(*req)[0],
            head[1] == playground_nodes(*req)[1],
            head[2] == playground_nodes(*req)[2],
        decreases req.nodes@.len() - i,
    {
        let node = &req.nodes[i];
        let mut node_payload_s = owned(node.title.as_str());
        node_payload_s.push_str("\n");
        node_payload_s.push_str(node.body.as_str());
        assert(node_payload_s@ == node_payload(req.nodes@[i as int]));
        let node_id = calculate_fnv1a(node_payload_s.as_str());
        let ghost prev = ast@;
        proof {
            lemma_node_bytes_prefix(req.nodes@, i as int + 1);
            lemma_node_bytes_prefix(req.nodes@, i as int);
            lemma_node_bytes_nonneg(req.nodes@.take(i as int));
            lemma_payload_bytes_nonneg(head);
        }
        ast.push_node(node_id, 2, node.tier, true, 0, node_payload_s.as_str());
        proof {
            assert(ast@.drop_last() == prev);
            assert(ast@ =~= head + req.nodes@.take(i + 1).map_values(|n: PlaygroundNodeInput| playground_sub_node(n)));
        }
        i = i + 1;
    }
    let ghost before = ast@;
    proof {
        assert(req.nodes@.take(i as int) =~= req.nodes@);
        assert(before =~= playground_nodes(*req));
        ast.lemma_wf_nodes();
        lemma_tokens_bounded(before, |k: int| before[k].0.active(), before.len() as int);
        assert(before.take(before.len() as int) =~= before);
    }
    let initial_tokens = ast.total_tokens();
    ast.prune(req.target_limit);
    proof {
        lemma_prune_within_budget(before, req.target_limit);
        lemma_prune_only_deactivates(before, req.target_limit);
    }
    let final_tokens = ast.total_tokens();
    let pruned_tokens = initial_tokens.saturating_sub(final_tokens);
    let dsl_output = ast.render_dsl();

    let listed = ast.iter_nodes();
    let ghost after = ast@;
    assert forall|x: int| 0 <= x < after.len() implies after[x].1 == before[x].1 && after[x].0.sub() == before[x].0.sub() by {
        lemma_deactivated_bits(before[x].0);
    }
    let mut out_nodes: Vec<PlaygroundNodeOutput> = Vec::new();
    let mut k: usize = 0;
    while k < listed.len()
        invariant
            k <= listed@.len(),
            listed@.len() == after.len(),
            after.len() == before.len(),
            before == playground_nodes(*req),
            forall|x: int| 0 <= x < after.len() ==> {
                &&& (#[trigger] listed@[x]).0 == after[x].0
                &&& listed@[x].1@ == after[x].1
            },
            forall|x: int| 0 <= x < after.len() ==> after[x].1 == before[x].1 && after[x].0.sub() == before[x].0.sub(),
            out_nodes@.len() == if k <= 3 { 0 } else { k - 3 },
            forall|j: int| 0 <= j < out_nodes@.len() ==> output_matches(#[trigger] out_nodes@[j], after[3 + j]),
        decreases listed@.len() - k,
    {
        let (header, payload_str, _) = (listed[k].0, &listed[k].1, listed[k].2);
        proof {
            lemma_push_flags(0, false);
            lemma_push_flags(1, false);
            lemma_push_flags(2, false);
            lemma_push_flags(2, true);
            if k >= 3 {
                assert(before[k as int] == playground_sub_node(req.nodes@[k - 3]));
            }
        }
        if header.is_subnode() {
            let (title, body) = split_first_line_exec(payload_str.as_str());
            out_nodes.push(PlaygroundNodeOutput {
                node_id: header.node_id,
                title,
                body,
                tier: header.priority,
                tokens: header.payload_len,
                is_active: header.is_active(),
            });
        }
        k = k + 1;
    }
    PlaygroundPruneResponse { initial_tokens, pruned_tokens, final_tokens, dsl_output, nodes: out_nodes }
}

proof fn lemma_node_bytes_nonneg(nodes: Seq<PlaygroundNodeInput>)
    ensures
        node_bytes(nodes) >= 0,
    decreases nodes.len(),
{
    if nodes.len() > 0 {
        lemma_node_bytes_nonneg(nodes.drop_last());
    }
}

proof fn lemma_payload_bytes_nonneg(ns: Seq<FlatNode>)
    ensures
        payload_bytes(ns) >= 0,
    decreases ns.len(),
{
    if ns.len() > 0 {
        lemma_payload_bytes_nonneg(ns.drop_last());
    }
}

proof fn lemma_node_bytes_prefix(nodes: Seq<PlaygroundNodeInput>, m: int)
    requires
        0 <= m <= nodes.len(),
    ensures
        node_bytes(nodes.take(m)) <= node_bytes(nodes),
        m > 0 ==> node_bytes(nodes.take(m)) == node_bytes(nodes.take(m - 1)) + encode_utf8(node_payload(nodes[m - 1])).len(),
    decreases nodes.len() - m,
{
    if m > 0 {
        assert(nodes.take(m).drop_last() =~= nodes.take(m - 1));
    }
    if m < nodes.len() {
        lemma_node_bytes_prefix(nodes, m + 1);
        assert(nodes.take(m + 1).drop_last() =~= nodes.take(m));
    } else {
        assert(nodes.take(m) =~= nodes);
    }
}

/// The payload bytes a request puts into the Flat-AST (`u64::MAX` when that
/// many do not fit a `u64`).
pub fn request_bytes_of(req: &PlaygroundPruneRequest) -> (r: u64)
    ensures
        r as int == if request_bytes(*req) <= u64::MAX { request_bytes(*req) } else { u64::MAX as int },
{
    let ghost head = encode_utf8(req.system_constraint@).len() + encode_utf8(req.task_instruction@).len()
        + encode_utf8("Playground Document Context"@).len();
    let a = req.system_constraint.as_str().as_bytes().len() as u64;
    let b = req.task_instruction.as_str().as_bytes().len() as u64;
    let c = "Playground Document Context".as_bytes().len() as u64;
    let mut total: u64 = a.saturating_add(b).saturating_add(c);
    assert(total as int == if head <= u64::MAX { head as int } else { u64::MAX as int });
    assert(req.nodes@.take(0) =~= Seq::<PlaygroundNodeInput>::empty());
    let mut i: usize = 0;
    while i < req.nodes.len()
        invariant
            i <= req.nodes@.len(),
            total as int == if head + node_bytes(req.nodes@.take(i as int)) <= u64::MAX {
                head + node_bytes(req.nodes@.take(i as int))
            } else {
                u64::MAX as int
            },
        decreases req.nodes@.len() - i,
    {
        proof {
            lemma_node_bytes_prefix(req.nodes@, i as int + 1);
            lemma_node_bytes_nonneg(req.nodes@.take(i as int));
            assert(req.nodes@.take(i + 1)[i as int] == req.nodes@[i as int]);
        }
        let n = &req.nodes[i];
        let mut payload = owned(n.title.as_str());
        payload.push_str("\n");
        payload.push_str(n.body.as_str());
        assert(payload@ == node_payload(req.nodes@[i as int]));
        let len = payload.as_str().as_bytes().len() as u64;
        total = total.saturating_add(len);
        i = i + 1;
    }
    assert(req.nodes@.take(i as int) =~= req.nodes@);
    total
}

} // verus!
