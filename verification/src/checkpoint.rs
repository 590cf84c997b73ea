//! The session checkpoint: what a compile run leaves for the next session,
//! and how it is turned into a Flat-AST prompt context.
use vstd::prelude::*;
use vstd::utf8::encode_utf8;
use crate::db::KnowledgeNode;
use crate::flat_ast::{calculate_fnv1a, fnv1a_str, lemma_push_flags, push_flags, pushed_header, FlatAST, FlatASTHeader, FlatNode};
use crate::text::{chars_of, contains, decimal, owned, parse_unsigned, parse_unsigned_chars, push_decimal, str_contains, str_eq};

verus! {

/// A saved session.
#[derive(Clone)]
pub struct Checkpoint {
    pub session_id: String,
    pub timestamp: String,
    pub ast_root_hash: String,
    pub context_stack: ContextStack,
    pub knowledge_graph_summary: KnowledgeGraphSummary,
    pub strategist_notes: String,
}

/// The working context: current scope, constraints and goals.
#[derive(Clone)]
pub struct ContextStack {
    pub current_scope: String,
    pub active_constraints: Vec<String>,
    pub spec_driven_goals: Vec<SpecGoal>,
}

/// A goal with its status (`PENDING` while open) and priority.
#[derive(Clone)]
pub struct SpecGoal {
    pub id: String,
    pub status: String,
    pub priority: i32,
}

/// The knowledge nodes of the session and the directories it works in.
#[derive(Clone)]
pub struct KnowledgeGraphSummary {
    pub nodes: Vec<SummaryNode>,
    pub hot_zones: Vec<String>,
}

/// What a summary entry stands for.
#[derive(Clone, Copy, PartialEq, Eq, Structural)]
pub enum KnowledgeType {
    Node,
    Link,
    Constraint,
    Spec,
    Devlog,
    Unknown,
}

/// One entry of the knowledge graph summary.
#[derive(Clone)]
pub struct SummaryNode {
    pub id: String,
    pub node_type: KnowledgeType,
    pub symbol: String,
    pub link: String,
}

/// Whether the characters from `from` to `to` are ASCII decimal digits.
pub open spec fn ascii_digits(s: Seq<char>, from: int, to: int) -> bool {
    forall|i: int| from <= i < to ==> '0' <= #[trigger] s[i] <= '9'
}

/// `s` is a UTC date and time as `to_rfc3339` writes it, with a year of `y`
/// characters and a fraction of `f` characters: a year of four digits (or a
/// sign and at least four digits), `-MM-DDTHH:MM:SS` in digits, an optional
/// fraction of 3, 6 or 9 digits after a `.`, then `+00:00`.
pub open spec fn rfc3339_parts(s: Seq<char>, y: int, f: int) -> bool {
    &&& (y == 4 && ascii_digits(s, 0, 4)) || (y >= 5 && (s[0] == '+' || s[0] == '-') && ascii_digits(s, 1, y))
    &&& (f == 0 || f == 4 || f == 7 || f == 10)
    &&& s.len() == y + 21 + f
    &&& s[y] == '-' && ascii_digits(s, y + 1, y + 3) && s[y + 3] == '-' && ascii_digits(s, y + 4, y + 6)
    &&& s[y + 6] == 'T' && ascii_digits(s, y + 7, y + 9) && s[y + 9] == ':' && ascii_digits(s, y + 10, y + 12)
    &&& s[y + 12] == ':' && ascii_digits(s, y + 13, y + 15)
    &&& f > 0 ==> s[y + 15] == '.' && ascii_digits(s, y + 16, y + 15 + f)
    &&& s[y + 15 + f] == '+' && s[y + 16 + f] == '0' && s[y + 17 + f] == '0' && s[y + 18 + f] == ':'
    &&& s[y + 19 + f] == '0' && s[y + 20 + f] == '0'
}

/// The shape of a UTC date and time as `to_rfc3339` writes it (see `rfc3339_parts`).
pub open spec fn rfc3339_utc(s: Seq<char>) -> bool {
    exists|y: int, f: int| #[trigger] rfc3339_parts(s, y, f)
}

/// The current time in RFC 3339 form, from `chrono::Utc::now().to_rfc3339()`.
/// Its shape is stated (`rfc3339_utc`, as chrono's `write_rfc3339` writes a
/// UTC time); which time it is depends on the clock.
#[verifier::external_body]
fn now_rfc3339() -> (r: String)
    ensures
        r@.len() > 0,
        rfc3339_utc(r@),
{
    chrono::Utc::now().to_rfc3339()
}

impl Checkpoint {
    /// A fresh checkpoint: scope `root`, no constraints, goals, nodes or hot
    /// zones, the note `Initialized new session.` and the current time.
    pub fn new(session_id: String, ast_root_hash: String) -> (r: Self)
        ensures
            r.session_id == session_id,
            r.ast_root_hash == ast_root_hash,
            r.context_stack.current_scope@ == "root"@,
            r.context_stack.active_constraints@.len() == 0,
            r.context_stack.spec_driven_goals@.len() == 0,
            r.knowledge_graph_summary.nodes@.len() == 0,
            r.knowledge_graph_summary.hot_zones@.len() == 0,
            r.strategist_notes@ == "Initialized new session."@,
            r.timestamp@.len() > 0,
            rfc3339_utc(r.timestamp@),
    {
        Checkpoint {
            session_id,
            timestamp: now_rfc3339(),
            ast_root_hash,
            context_stack: ContextStack {
                current_scope: owned("root"),
                active_constraints: Vec::new(),
                spec_driven_goals: Vec::new(),
            },
            knowledge_graph_summary: KnowledgeGraphSummary { nodes: Vec::new(), hot_zones: Vec::new() },
            strategist_notes: owned("Initialized new session."),
        }
    }
}

// ---------------------------------------------------------------------------
// Checkpoint to Flat-AST
// ---------------------------------------------------------------------------

/// The node id of a summary entry: its id read as hexadecimal, or the FNV-1a
/// hash of the id when it is not a hexadecimal `u64`.
pub open spec fn summary_node_id(id: Seq<char>) -> u64 {
    match parse_unsigned(id, 16, u64::MAX as nat) {
        Some(v) => v as u64,
        None => fnv1a_str(id),
    }
}

/// A goal priority clamped to `1..=255`.
pub open spec fn goal_priority(p: i32) -> u8 {
    if p < 1 {
        1
    } else if p > 255 {
        255
    } else {
        p as u8
    }
}

/// The first goal whose id contains `id` or is contained in it.
pub open spec fn first_related_goal(goals: Seq<SpecGoal>, id: Seq<char>) -> Option<SpecGoal>
    decreases goals.len(),
{
    if goals.len() == 0 {
        None
    } else if contains(goals[0].id@, id) || contains(id, goals[0].id@) {
        Some(goals[0])
    } else {
        first_related_goal(goals.drop_first(), id)
    }
}

/// Whether `id` is one of the hot zones.
pub open spec fn is_hot(zones: Seq<String>, id: Seq<char>) -> bool {
    exists|k: int| 0 <= k < zones.len() && (#[trigger] zones[k])@ == id
}

/// The priority of a reference node: 1 in a hot zone, else the clamped
/// priority of the first related goal, else 5.
pub open spec fn node_priority(cp: Checkpoint, id: Seq<char>) -> u8 {
    if is_hot(cp.knowledge_graph_summary.hot_zones@, id) {
        1
    } else {
        match first_related_goal(cp.context_stack.spec_driven_goals@, id) {
            Some(g) => goal_priority(g.priority),
            None => 5,
        }
    }
}

/// The first stored node with the given id.
pub open spec fn find_by_id(kb: Seq<KnowledgeNode>, id: Seq<char>) -> Option<KnowledgeNode>
    decreases kb.len(),
{
    if kb.len() == 0 {
        None
    } else if kb[0].id@ == id {
        Some(kb[0])
    } else {
        find_by_id(kb.drop_first(), id)
    }
}

/// A protected node of the given type whose id is the FNV-1a hash of its text.
pub open spec fn protected_node(node_type: u8, text: Seq<char>) -> FlatNode {
    (pushed_header(fnv1a_str(text), node_type, 0, false, 0, text), text)
}

/// One System node per constraint.
pub open spec fn constraint_nodes(cs: Seq<String>) -> Seq<FlatNode> {
    cs.map_values(|c: String| protected_node(0, c@))
}

/// One Instruction node per pending goal.
pub open spec fn goal_nodes(gs: Seq<SpecGoal>) -> Seq<FlatNode>
    decreases gs.len(),
{
    if gs.len() == 0 {
        Seq::empty()
    } else {
        goal_nodes(gs.drop_last()) + if gs.last().status@ == "PENDING"@ {
            seq![protected_node(1, gs.last().id@)]
        } else {
            Seq::empty()
        }
    }
}

/// One Reference node per summary entry that is no link and whose node is
/// stored: the stored content, with the entry's node id and priority.
pub open spec fn reference_nodes(cp: Checkpoint, sns: Seq<SummaryNode>, kb: Seq<KnowledgeNode>) -> Seq<FlatNode>
    decreases sns.len(),
{
    if sns.len() == 0 {
        Seq::empty()
    } else {
        let sn = sns.last();
        reference_nodes(cp, sns.drop_last(), kb) + if sn.node_type == KnowledgeType::Link {
            Seq::empty()
        } else {
            match find_by_id(kb, sn.id@) {
                Some(n) => seq![
                    (
                        pushed_header(summary_node_id(sn.id@), 2, node_priority(cp, sn.id@), false, 0, n.content@),
                        n.content@,
                    ),
                ],
                None => Seq::empty(),
            }
        }
    }
}

/// The Flat-AST nodes of a checkpoint: constraints, pending goals, then references.
pub open spec fn checkpoint_nodes(cp: Checkpoint, kb: Seq<KnowledgeNode>) -> Seq<FlatNode> {
    constraint_nodes(cp.context_stack.active_constraints@) + goal_nodes(cp.context_stack.spec_driven_goals@)
        + reference_nodes(cp, cp.knowledge_graph_summary.nodes@, kb)
}

/// Every payload that a checkpoint can put into a Flat-AST fits the header's
/// 32-bit length field.
pub open spec fn payloads_fit(cp: Checkpoint, kb: Seq<KnowledgeNode>) -> bool {
    &&& forall|k: int| 0 <= k < cp.context_stack.active_constraints@.len() ==> encode_utf8(
        (#[trigger] cp.context_stack.active_constraints@[k])@,
    ).len() <= u32::MAX
    &&& forall|k: int| 0 <= k < cp.context_stack.spec_driven_goals@.len() ==> encode_utf8(
        (#[trigger] cp.context_stack.spec_driven_goals@[k]).id@,
    ).len() <= u32::MAX
    &&& forall|k: int| 0 <= k < kb.len() ==> encode_utf8((#[trigger] kb[k]).content@).len() <= u32::MAX
}

fn summary_id_value(id: &str) -> (r: u64)
    ensures
        r == summary_node_id(id@),
{
    let cs = chars_of(id);
    match parse_unsigned_chars(cs.as_slice(), 16, 0xffff_ffff_ffff_ffffu64) {
        Some(v) => v,
        None => calculate_fnv1a(id),
    }
}

fn lookup_node(kb: &Vec<KnowledgeNode>, id: &str) -> (r: Option<usize>)
    ensures
        match r {
            Some(i) => i < kb@.len() && find_by_id(kb@, id@) == Some(kb@[i as int]),
            None => find_by_id(kb@, id@) is None,
        },
{
    let mut i: usize = 0;
    assert(kb@.skip(0) =~= kb@);
    while i < kb.len()
        invariant
            i <= kb@.len(),
            find_by_id(kb@, id@) == find_by_id(kb@.skip(i as int), id@),
        decreases kb@.len() - i,
    {
        assert(kb@.skip(i as int)[0] == kb@[i as int]);
        if str_eq(kb[i].id.as_str(), id) {
            return Some(i);
        }
        assert(kb@.skip(i as int).drop_first() =~= kb@.skip(i + 1));
        i = i + 1;
    }
    None
}

impl Checkpoint {
    fn is_hot_zone(&self, id: &str) -> (r: bool)
        ensures
            r == is_hot(self.knowledge_graph_summary.hot_zones@, id@),
    {
        let zones = &self.knowledge_graph_summary.hot_zones;
        let mut k: usize = 0;
        while k < zones.len()
            invariant
                k <= zones@.len(),
                zones == &self.knowledge_graph_summary.hot_zones,
                forall|j: int| 0 <= j < k ==> (#[trigger] zones@[j])@ != id@,
            decreases zones@.len() - k,
        {
            if str_eq(zones[k].as_str(), id) {
                return true;
            }
            k = k + 1;
        }
        false
    }

    fn reference_priority(&self, id: &str) -> (r: u8)
        ensures
            r == node_priority(*self, id@),
    {
        if self.is_hot_zone(id) {
            return 1;
        }
        let goals = &self.context_stack.spec_driven_goals;
        let mut k: usize = 0;
        assert(goals@.skip(0) =~= goals@);
        while k < goals.len()
            invariant
                k <= goals@.len(),
                goals == &self.context_stack.spec_driven_goals,
                !is_hot(self.knowledge_graph_summary.hot_zones@, id@),
                first_related_goal(goals@, id@) == first_related_goal(goals@.skip(k as int), id@),
            decreases goals@.len() - k,
        {
            assert(goals@.skip(k as int)[0] == goals@[k as int]);
            let g = &goals[k];
            if str_contains(g.id.as_str(), id) || str_contains(id, g.id.as_str()) {
                assert(first_related_goal(goals@.skip(k as int), id@) == Some(goals@[k as int]));
                let p = g.priority;
                return if p < 1 {
                    1
                } else if p > 255 {
                    255
                } else {
                    p as u8
                };
            }
            assert(goals@.skip(k as int).drop_first() =~= goals@.skip(k + 1));
            k = k + 1;
        }
        5
    }

    /// Turns the checkpoint into a Flat-AST: one protected System node per
    /// constraint, one protected Instruction node per pending goal, and one
    /// Reference node per summary entry that is no link and whose node is in
    /// `kb`, carrying that node's content.
    pub fn to_flat_ast(&self, kb: &Vec<KnowledgeNode>) -> (r: FlatAST)
        requires
            payloads_fit(*self, kb@),
        ensures
            r.wf(),
            r@ == checkpoint_nodes(*self, kb@),
    {
        let mut ast = FlatAST::new();
        let constraints = &self.context_stack.active_constraints;
        let mut i: usize = 0;
        while i < constraints.len()
            invariant
                i <= constraints@.len(),
                constraints == &self.context_stack.active_constraints,
                payloads_fit(*self, kb@),
                ast.wf(),
                ast@ == constraint_nodes(constraints@.take(i as int)),
            decreases constraints@.len() - i,
        {
            let c = constraints[i].as_str();
            let node_id = calculate_fnv1a(c);
            ast.push_node(node_id, 0, 0, false, 0, c);
            i = i + 1;
            assert(ast@ =~= constraint_nodes(constraints@.take(i as int)));
        }
        assert(constraints@.take(i as int) =~= constraints@);
        let ghost head = ast@;
        let goals = &self.context_stack.spec_driven_goals;
        let mut j: usize = 0;
        while j < goals.len()
            invariant
                j <= goals@.len(),
                goals == &self.context_stack.spec_driven_goals,
                payloads_fit(*self, kb@),
                ast.wf(),
                ast@ == head + goal_nodes(goals@.take(j as int)),
            decreases goals@.len() - j,
        {
            assert(goals@.take(j + 1).drop_last() =~= goals@.take(j as int));
            let g = &goals[j];
            if str_eq(g.status.as_str(), "PENDING") {
                let node_id = calculate_fnv1a(g.id.as_str());
                ast.push_node(node_id, 1, 0, false, 0, g.id.as_str());
            }
            j = j + 1;
            assert(ast@ =~= head + goal_nodes(goals@.take(j as int)));
        }
        assert(goals@.take(j as int) =~= goals@);
        let ghost head2 = ast@;
        let entries = &self.knowledge_graph_summary.nodes;
        let mut k: usize = 0;
        while k < entries.len()
            invariant
                k <= entries@.len(),
                entries == &self.knowledge_graph_summary.nodes,
                payloads_fit(*self, kb@),
                ast.wf(),
                ast@ == head2 + reference_nodes(*self, entries@.take(k as int), kb@),
            decreases entries@.len() - k,
        {
            assert(entries@.take(k + 1).drop_last() =~= entries@.take(k as int));
            let sn = &entries[k];
            if sn.node_type != KnowledgeType::Link {
                if let Some(x) = lookup_node(kb, sn.id.as_str()) {
                    let node_id = summary_id_value(sn.id.as_str());
                    let priority = self.reference_priority(sn.id.as_str());
                    ast.push_node(node_id, 2, priority, false, 0, kb[x].content.as_str());
                }
            }
            k = k + 1;
            assert(ast@ =~= head2 + reference_nodes(*self, entries@.take(k as int), kb@));
        }
        assert(entries@.take(k as int) =~= entries@);
        ast
    }
}

// ---------------------------------------------------------------------------
// Checkpoint generation
// ---------------------------------------------------------------------------

/// The summary entry of a stored node: its id, its title as symbol and a
/// `file://` link to its source.
pub open spec fn summary_entry_ok(e: SummaryNode, n: KnowledgeNode) -> bool {
    &&& e.id@ == n.id@
    &&& e.node_type == KnowledgeType::Node
    &&& e.symbol@ == n.title@
    &&& e.link@ == "file://"@ + n.source_path@
}

/// The note left for the next session.
pub open spec fn packing_note(count: nat, hash: Seq<char>) -> Seq<char> {
    "前回セッション完了: "@ + decimal(count) + " 個のノードをパッキング済み。ASTハッシュ: "@ + hash
}

/// The checkpoint of a finished compile run: a fresh checkpoint for the
/// session and hash, one summary entry per stored node, the scanned
/// directories as hot zones, and a note with the node count and the hash.
pub fn generate_checkpoint(
    nodes: &Vec<KnowledgeNode>,
    target_dirs: &Vec<String>,
    session_id: &str,
    ast_root_hash: String,
) -> (r: Checkpoint)
    ensures
        r.session_id@ == session_id@,
        r.ast_root_hash == ast_root_hash,
        r.context_stack.current_scope@ == "root"@,
        r.context_stack.active_constraints@.len() == 0,
        r.context_stack.spec_driven_goals@.len() == 0,
        r.knowledge_graph_summary.nodes@.len() == nodes@.len(),
        forall|k: int|
            0 <= k < nodes@.len() ==> summary_entry_ok(
                #[trigger] r.knowledge_graph_summary.nodes@[k],
                nodes@[k],
            ),
        r.knowledge_graph_summary.hot_zones@ == target_dirs@,
        r.strategist_notes@ == packing_note(nodes@.len(), ast_root_hash@),
        r.timestamp@.len() > 0,
        rfc3339_utc(r.timestamp@),
{
    let mut checkpoint = Checkpoint::new(owned(session_id), ast_root_hash);
    let mut entries: Vec<SummaryNode> = Vec::new();
    let mut i: usize = 0;
    while i < nodes.len()
        invariant
            i <= nodes@.len(),
            entries@.len() == i,
            forall|k: int| 0 <= k < i ==> summary_entry_ok(#[trigger] entries@[k], nodes@[k]),
        decreases nodes@.len() - i,
    {
        let n = &nodes[i];
        let mut link = owned("file://");
        link.push_str(n.source_path.as_str());
        entries.push(SummaryNode { id: n.id.clone(), node_type: KnowledgeType::Node, symbol: n.title.clone(), link });
        i = i + 1;
    }
    let mut zones: Vec<String> = Vec::new();
    let mut z: usize = 0;
    while z < target_dirs.len()
        invariant
            z <= target_dirs@.len(),
            zones@ == target_dirs@.take(z as int),
        decreases target_dirs@.len() - z,
    {
        zones.push(target_dirs[z].clone());
        z = z + 1;
        assert(zones@ =~= target_dirs@.take(z as int));
    }
    assert(target_dirs@.take(z as int) =~= target_dirs@);
    let mut note = owned("前回セッション完了: ");
    push_decimal(&mut note, entries.len() as u64);
    note.push_str(" 個のノードをパッキング済み。ASTハッシュ: ");
    note.push_str(checkpoint.ast_root_hash.as_str());
    checkpoint.knowledge_graph_summary.nodes = entries;
    checkpoint.knowledge_graph_summary.hot_zones = zones;
    checkpoint.strategist_notes = note;
    checkpoint
}

proof fn lemma_no_related_goal(goals: Seq<SpecGoal>, id: Seq<char>)
    requires
        forall|k: int| 0 <= k < goals.len() ==> !contains((#[trigger] goals[k]).id@, id) && !contains(id, goals[k].id@),
    ensures
        first_related_goal(goals, id) == None::<SpecGoal>,
    decreases goals.len(),
{
    if goals.len() > 0 {
        assert(goals[0] == goals[0]);
        assert forall|k: int| 0 <= k < goals.drop_first().len() implies !contains((#[trigger] goals.drop_first()[k]).id@, id)
            && !contains(id, goals.drop_first()[k].id@) by {
            assert(goals.drop_first()[k] == goals[k + 1]);
        }
        lemma_no_related_goal(goals.drop_first(), id);
    }
}

/// The priority of a reference node: 1 when its id is a hot zone; otherwise
/// at least 1 when a goal relates to it; and the default 5 when its id is no
/// hot zone and no goal id contains it or is contained in it.  It is never 0,
/// so a reference is always a pruning candidate.
pub proof fn lemma_reference_priority(cp: Checkpoint, id: Seq<char>)
    ensures
        node_priority(cp, id) >= 1,
        (exists|k: int| 0 <= k < cp.knowledge_graph_summary.hot_zones@.len()
            && (#[trigger] cp.knowledge_graph_summary.hot_zones@[k])@ == id) ==> node_priority(cp, id) == 1,
        ((forall|k: int| 0 <= k < cp.knowledge_graph_summary.hot_zones@.len()
            ==> (#[trigger] cp.knowledge_graph_summary.hot_zones@[k])@ != id) && (forall|k: int|
            0 <= k < cp.context_stack.spec_driven_goals@.len() ==> !contains(
                (#[trigger] cp.context_stack.spec_driven_goals@[k]).id@,
                id,
            ) && !contains(id, cp.context_stack.spec_driven_goals@[k].id@))) ==> node_priority(cp, id) == 5,
{
    let goals = cp.context_stack.spec_driven_goals@;
    if (forall|k: int| 0 <= k < goals.len() ==> !contains((#[trigger] goals[k]).id@, id) && !contains(id, goals[k].id@)) {
        lemma_no_related_goal(goals, id);
    }
}

proof fn lemma_pushed_kind(h: FlatASTHeader, node_type: u8, is_subnode: bool)
    requires
        h.flags == push_flags(node_type, is_subnode),
    ensures
        h.kind() == node_type & 3u8,
        node_type < 4 ==> h.kind() == node_type,
        h.sub() == is_subnode,
        h.active(),
{
    lemma_push_flags(node_type, is_subnode);
    assert(node_type < 4 ==> node_type & 3u8 == node_type) by (bit_vector);
}

proof fn lemma_goal_nodes_kind(gs: Seq<SpecGoal>)
    ensures
        forall|k: int| 0 <= k < goal_nodes(gs).len() ==> (#[trigger] goal_nodes(gs)[k]).0.kind() == 1,
    decreases gs.len(),
{
    if gs.len() > 0 {
        lemma_goal_nodes_kind(gs.drop_last());
        let a = goal_nodes(gs.drop_last());
        let n = protected_node(1, gs.last().id@);
        lemma_pushed_kind(n.0, 1, false);
        assert forall|k: int| 0 <= k < goal_nodes(gs).len() implies (#[trigger] goal_nodes(gs)[k]).0.kind() == 1 by {
            if k < a.len() {
                assert(goal_nodes(gs)[k] == a[k]);
            } else {
                assert(goal_nodes(gs)[k] == n);
            }
        }
    }
}

proof fn lemma_reference_nodes_prunable(cp: Checkpoint, sns: Seq<SummaryNode>, kb: Seq<KnowledgeNode>)
    ensures
        forall|k: int|
            0 <= k < reference_nodes(cp, sns, kb).len() ==> (#[trigger] reference_nodes(cp, sns, kb)[k]).0.kind() == 2
                && reference_nodes(cp, sns, kb)[k].0.priority >= 1 && !reference_nodes(cp, sns, kb)[k].0.sub(),
    decreases sns.len(),
{
    if sns.len() > 0 {
        lemma_reference_nodes_prunable(cp, sns.drop_last(), kb);
        let a = reference_nodes(cp, sns.drop_last(), kb);
        let sn = sns.last();
        lemma_reference_priority(cp, sn.id@);
        assert forall|k: int| 0 <= k < reference_nodes(cp, sns, kb).len() implies (#[trigger] reference_nodes(cp, sns, kb)[k]).0.kind()
            == 2 && reference_nodes(cp, sns, kb)[k].0.priority >= 1 && !reference_nodes(cp, sns, kb)[k].0.sub() by {
            if k < a.len() {
                assert(reference_nodes(cp, sns, kb)[k] == a[k]);
            } else {
                let h = reference_nodes(cp, sns, kb)[k].0;
                lemma_pushed_kind(h, 2, false);
            }
        }
    }
}

/// In the Flat-AST of a checkpoint, System and Instruction nodes are the
/// protected ones (priority 0), and every Reference node is a pruning
/// candidate: an active, non-sub-node Reference with priority at least 1.
pub proof fn lemma_checkpoint_references_prunable(cp: Checkpoint, kb: Seq<KnowledgeNode>)
    ensures
        forall|k: int|
            0 <= k < checkpoint_nodes(cp, kb).len() ==> {
                let h = (#[trigger] checkpoint_nodes(cp, kb)[k]).0;
                &&& h.kind() <= 2
                &&& h.kind() == 2 ==> h.priority >= 1 && !h.sub()
                &&& h.kind() != 2 ==> h.priority == 0
            },
{
    let a = constraint_nodes(cp.context_stack.active_constraints@);
    let b = goal_nodes(cp.context_stack.spec_driven_goals@);
    let c = reference_nodes(cp, cp.knowledge_graph_summary.nodes@, kb);
    let ns = checkpoint_nodes(cp, kb);
    lemma_goal_nodes_kind(cp.context_stack.spec_driven_goals@);
    lemma_reference_nodes_prunable(cp, cp.knowledge_graph_summary.nodes@, kb);
    assert(ns == a + b + c);
    assert forall|k: int| 0 <= k < ns.len() implies {
        let h = (#[trigger] ns[k]).0;
        &&& h.kind() <= 2
        &&& h.kind() == 2 ==> h.priority >= 1 && !h.sub()
        &&& h.kind() != 2 ==> h.priority == 0
    } by {
        if k < a.len() {
            assert(ns[k] == a[k]);
            lemma_pushed_kind(a[k].0, 0, false);
        } else if k < a.len() + b.len() {
            assert(ns[k] == b[k - a.len()]);
            lemma_goal_node_priority(cp.context_stack.spec_driven_goals@, k - a.len());
        } else {
            assert(ns[k] == c[k - a.len() - b.len()]);
        }
    }
}

proof fn lemma_goal_node_priority(gs: Seq<SpecGoal>, k: int)
    requires
        0 <= k < goal_nodes(gs).len(),
    ensures
        goal_nodes(gs)[k].0.priority == 0,
    decreases gs.len(),
{
    let a = goal_nodes(gs.drop_last());
    if k < a.len() {
        lemma_goal_node_priority(gs.drop_last(), k);
        assert(goal_nodes(gs)[k] == a[k]);
    }
}

} // verus!
