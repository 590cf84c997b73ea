//! Records of the knowledge store and the undo log of a speculative transaction.
//!
//! The store itself (SQLite) lives outside the library; what it hands over and
//! what a speculative transaction has to undo are modelled here.
use vstd::prelude::*;
use crate::text::owned;

verus! {

/// One knowledge node: a section of a source document with its summary.
pub struct KnowledgeNode {
    pub id: String,
    pub source_path: String,
    pub file_hash: Option<String>,
    pub context_path: String,
    pub title: String,
    pub content: String,
    pub summary: String,
    pub metadata: String,
}

impl Clone for KnowledgeNode {
    fn clone(&self) -> (r: Self)
        ensures
            r == *self,
    {
        KnowledgeNode {
            id: self.id.clone(),
            source_path: self.source_path.clone(),
            file_hash: match &self.file_hash {
                Some(h) => Some(h.clone()),
                None => None,
            },
            context_path: self.context_path.clone(),
            title: self.title.clone(),
            content: self.content.clone(),
            summary: self.summary.clone(),
            metadata: self.metadata.clone(),
        }
    }
}

/// The modification time recorded for a source file.
pub struct FileMeta {
    pub path: String,
    pub mtime: u64,
}

/// A cluster of knowledge nodes.
pub struct Cluster {
    pub id: String,
    pub parent_id: String,
    pub title: String,
    pub summary: String,
    pub criteria: String,
}

impl Clone for Cluster {
    fn clone(&self) -> (r: Self)
        ensures
            r == *self,
    {
        Cluster {
            id: self.id.clone(),
            parent_id: self.parent_id.clone(),
            title: self.title.clone(),
            summary: self.summary.clone(),
            criteria: self.criteria.clone(),
        }
    }
}

/// The operation that undoes one speculative write.
pub enum UndoOp {
    /// Delete the node with this id.
    DeleteNode(String),
    /// Delete the file metadata of this path.
    DeleteFileMeta(String),
    /// Delete the cluster with this id.
    DeleteCluster(String),
    /// Delete the link (source id, target id, link type).
    DeleteLink(String, String, String),
}

impl Clone for UndoOp {
    fn clone(&self) -> (r: Self)
        ensures
            r == *self,
    {
        match self {
            UndoOp::DeleteNode(id) => UndoOp::DeleteNode(id.clone()),
            UndoOp::DeleteFileMeta(p) => UndoOp::DeleteFileMeta(p.clone()),
            UndoOp::DeleteCluster(id) => UndoOp::DeleteCluster(id.clone()),
            UndoOp::DeleteLink(s, t, l) => UndoOp::DeleteLink(s.clone(), t.clone(), l.clone()),
        }
    }
}

/// The undo log of a speculative transaction: one entry per write that went
/// through, in the order the writes were made.
pub struct SpeculativeTransaction {
    undo_stack: Vec<UndoOp>,
}

impl View for SpeculativeTransaction {
    type V = Seq<UndoOp>;

    closed spec fn view(&self) -> Seq<UndoOp> {
        self.undo_stack@
    }
}

impl SpeculativeTransaction {
    /// A transaction with nothing to undo.
    pub fn new() -> (r: Self)
        ensures
            r@ == Seq::<UndoOp>::empty(),
    {
        SpeculativeTransaction { undo_stack: Vec::new() }
    }

    /// Records that the node `id` was written.
    pub fn record_node_insert(&mut self, id: &str)
        ensures
            final(self)@.drop_last() == old(self)@,
            final(self)@.last() matches UndoOp::DeleteNode(n) && n@ == id@,
    {
        self.undo_stack.push(UndoOp::DeleteNode(owned(id)));
        assert(self.undo_stack@.drop_last() =~= old(self)@);
    }

    /// Records that the cluster `id` was written.
    pub fn record_cluster_insert(&mut self, id: &str)
        ensures
            final(self)@.drop_last() == old(self)@,
            final(self)@.last() matches UndoOp::DeleteCluster(n) && n@ == id@,
    {
        self.undo_stack.push(UndoOp::DeleteCluster(owned(id)));
        assert(self.undo_stack@.drop_last() =~= old(self)@);
    }

    /// Records that the link (`source_id`, `target_id`, `link_type`) was written.
    pub fn record_link_insert(&mut self, source_id: &str, target_id: &str, link_type: &str)
        ensures
            final(self)@.drop_last() == old(self)@,
            final(self)@.last() matches UndoOp::DeleteLink(s, t, l) && s@ == source_id@ && t@ == target_id@
                && l@ == link_type@,
    {
        self.undo_stack.push(UndoOp::DeleteLink(owned(source_id), owned(target_id), owned(link_type)));
        assert(self.undo_stack@.drop_last() =~= old(self)@);
    }

    /// Number of writes that a rollback would undo.
    pub fn pending(&self) -> (r: usize)
        ensures
            r == self@.len(),
    {
        self.undo_stack.len()
    }

    /// Ends the transaction by rolling it back: the undo operations to run, the
    /// most recent write first.
    pub fn rollback(self) -> (r: Vec<UndoOp>)
        ensures
            r@ == self@.reverse(),
    {
        let mut stack = self.undo_stack;
        let ghost recorded = stack@;
        let mut plan: Vec<UndoOp> = Vec::new();
        while stack.len() > 0
            invariant
                recorded.len() == stack@.len() + plan@.len(),
                stack@ == recorded.take(stack@.len() as int),
                plan@ == recorded.skip(stack@.len() as int).reverse(),
            decreases stack@.len(),
        {
            let op = stack.pop().unwrap();
            plan.push(op);
            assert(plan@ =~= recorded.skip(stack@.len() as int).reverse());
        }
        assert(recorded.skip(0) =~= recorded);
        plan
    }

    /// Keeps every write made so far: nothing is left to undo.
    pub fn commit(&mut self)
        ensures
            final(self)@ == Seq::<UndoOp>::empty(),
    {
        self.undo_stack.clear();
    }
}

/// The table row a speculative write creates and its undo operation deletes:
/// the table (node, file metadata, cluster, link) and the row's key.
pub open spec fn row_key(op: UndoOp) -> (int, Seq<char>, Seq<char>, Seq<char>) {
    match op {
        UndoOp::DeleteNode(id) => (0, id@, Seq::empty(), Seq::empty()),
        UndoOp::DeleteFileMeta(path) => (1, path@, Seq::empty(), Seq::empty()),
        UndoOp::DeleteCluster(id) => (2, id@, Seq::empty(), Seq::empty()),
        UndoOp::DeleteLink(s, t, l) => (3, s@, t@, l@),
    }
}

/// The rows of the database after the recorded writes, in order: each write
/// inserts (or replaces) the row its undo operation names.
pub open spec fn after_writes(
    rows: Set<(int, Seq<char>, Seq<char>, Seq<char>)>,
    recorded: Seq<UndoOp>,
) -> Set<(int, Seq<char>, Seq<char>, Seq<char>)>
    decreases recorded.len(),
{
    if recorded.len() == 0 {
        rows
    } else {
        after_writes(rows, recorded.drop_last()).insert(row_key(recorded.last()))
    }
}

/// The rows after running an undo plan, in order: each operation deletes its row.
pub open spec fn after_undo(
    rows: Set<(int, Seq<char>, Seq<char>, Seq<char>)>,
    plan: Seq<UndoOp>,
) -> Set<(int, Seq<char>, Seq<char>, Seq<char>)>
    decreases plan.len(),
{
    if plan.len() == 0 {
        rows
    } else {
        after_undo(rows, plan.drop_last()).remove(row_key(plan.last()))
    }
}

/// The rows named by a sequence of undo operations.
pub open spec fn keys_of(ops: Seq<UndoOp>) -> Set<(int, Seq<char>, Seq<char>, Seq<char>)> {
    Set::new(|k: (int, Seq<char>, Seq<char>, Seq<char>)| exists|i: int| 0 <= i < ops.len() && row_key(ops[i]) == k)
}

proof fn lemma_after_writes(rows: Set<(int, Seq<char>, Seq<char>, Seq<char>)>, recorded: Seq<UndoOp>)
    ensures
        after_writes(rows, recorded) == rows.union(keys_of(recorded)),
    decreases recorded.len(),
{
    if recorded.len() > 0 {
        let prev = recorded.drop_last();
        lemma_after_writes(rows, prev);
        assert forall|k| #[trigger] keys_of(recorded).contains(k) == (keys_of(prev).contains(k) || k == row_key(
            recorded.last(),
        )) by {
            if keys_of(recorded).contains(k) {
                let i = choose|i: int| 0 <= i < recorded.len() && row_key(recorded[i]) == k;
                if i < prev.len() {
                    assert(prev[i] == recorded[i]);
                }
            }
            if keys_of(prev).contains(k) {
                let i = choose|i: int| 0 <= i < prev.len() && row_key(prev[i]) == k;
                assert(prev[i] == recorded[i]);
            }
            if k == row_key(recorded.last()) {
                assert(row_key(recorded[recorded.len() - 1]) == k);
            }
        }
        assert(after_writes(rows, recorded) =~= rows.union(keys_of(recorded)));
    } else {
        assert(rows.union(keys_of(recorded)) =~= rows);
    }
}

proof fn lemma_after_undo(rows: Set<(int, Seq<char>, Seq<char>, Seq<char>)>, plan: Seq<UndoOp>)
    ensures
        after_undo(rows, plan) == rows.difference(keys_of(plan)),
    decreases plan.len(),
{
    if plan.len() > 0 {
        let prev = plan.drop_last();
        lemma_after_undo(rows, prev);
        assert forall|k| #[trigger] keys_of(plan).contains(k) == (keys_of(prev).contains(k) || k == row_key(
            plan.last(),
        )) by {
            if keys_of(plan).contains(k) {
                let i = choose|i: int| 0 <= i < plan.len() && row_key(plan[i]) == k;
                if i < prev.len() {
                    assert(prev[i] == plan[i]);
                }
            }
            if keys_of(prev).contains(k) {
                let i = choose|i: int| 0 <= i < prev.len() && row_key(prev[i]) == k;
                assert(prev[i] == plan[i]);
            }
            if k == row_key(plan.last()) {
                assert(row_key(plan[plan.len() - 1]) == k);
            }
        }
        assert(after_undo(rows, plan) =~= rows.difference(keys_of(plan)));
    } else {
        assert(rows.difference(keys_of(plan)) =~= rows);
    }
}

/// Rolling back restores the tables: when no row that the transaction wrote
/// existed before it, running the rollback plan (the undo operations, newest
/// first) after the recorded writes gives back exactly the rows from before.
pub proof fn lemma_rollback_restores(
    rows: Set<(int, Seq<char>, Seq<char>, Seq<char>)>,
    recorded: Seq<UndoOp>,
)
    requires
        forall|i: int| 0 <= i < recorded.len() ==> !rows.contains(#[trigger] row_key(recorded[i])),
    ensures
        after_undo(after_writes(rows, recorded), recorded.reverse()) == rows,
{
    let plan = recorded.reverse();
    lemma_after_writes(rows, recorded);
    lemma_after_undo(after_writes(rows, recorded), plan);
    assert forall|k| #[trigger] keys_of(plan).contains(k) == keys_of(recorded).contains(k) by {
        if keys_of(plan).contains(k) {
            let i = choose|i: int| 0 <= i < plan.len() && row_key(plan[i]) == k;
            assert(plan[i] == recorded[recorded.len() - 1 - i]);
        }
        if keys_of(recorded).contains(k) {
            let i = choose|i: int| 0 <= i < recorded.len() && row_key(recorded[i]) == k;
            assert(plan[recorded.len() - 1 - i] == recorded[i]);
        }
    }
    assert forall|k| rows.contains(k) implies !keys_of(recorded).contains(k) by {
        if keys_of(recorded).contains(k) {
            let i = choose|i: int| 0 <= i < recorded.len() && row_key(recorded[i]) == k;
            assert(!rows.contains(row_key(recorded[i])));
        }
    }
    assert(rows.union(keys_of(recorded)).difference(keys_of(plan)) =~= rows);
}

} // verus!
