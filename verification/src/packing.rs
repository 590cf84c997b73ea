//! Packing the knowledge base: the fingerprint of the source documents and
//! the preorder layout of the knowledge tree.
use vstd::prelude::*;
use std::collections::HashMap;
use vstd::utf8::encode_utf8;
use sha2::Digest;
use crate::flat_ast::{calculate_fnv1a, fnv1a_str};
use crate::text::{chars_of, hex_fixed, last_occurrence, occurs_at, rfind_chars, slice_chars, string_from_chars};

verus! {

/// The SHA-256 digest of some bytes.
pub uninterp spec fn sha256(data: Seq<u8>) -> Seq<u8>;

/// Hashes bytes with `sha2::Sha256` (one `update`, then `finalize`): the
/// 32-byte SHA-256 digest.
#[verifier::external_body]
fn sha256_digest(data: &[u8]) -> (r: Vec<u8>)
    ensures
        r@ == sha256(data@),
        r@.len() == 32,
{
    let mut hasher = sha2::Sha256::new();
    hasher.update(data);
    hasher.finalize().to_vec()
}

/// Two lowercase hexadecimal digits per byte, high nibble first.
pub open spec fn hex_lower(bytes: Seq<u8>) -> Seq<char>
    decreases bytes.len(),
{
    if bytes.len() == 0 {
        Seq::empty()
    } else {
        hex_lower(bytes.drop_last()) + hex_fixed(bytes.last() as nat, 2)
    }
}

/// Encodes bytes with `hex::encode`: two lowercase hexadecimal digits per
/// byte, high nibble first.
#[verifier::external_body]
fn hex_encode(bytes: &[u8]) -> (r: String)
    ensures
        r@ == hex_lower(bytes@),
{
    hex::encode(bytes)
}

/// The bytes hashed for a set of source files, in the given order: each
/// file's path (UTF-8) followed by its content.
pub open spec fn hash_input(files: Seq<(String, Vec<u8>)>) -> Seq<u8>
    decreases files.len(),
{
    if files.len() == 0 {
        Seq::empty()
    } else {
        hash_input(files.drop_last()) + encode_utf8(files.last().0@) + files.last().1@
    }
}

/// The fingerprint of the source documents: the lowercase hexadecimal
/// SHA-256 of every file's path followed by its content, in the given order
/// (the caller sorts the paths).
pub fn calculate_ast_root_hash(files: &Vec<(String, Vec<u8>)>) -> (r: String)
    ensures
        r@ == hex_lower(sha256(hash_input(files@))),
{
    let mut data: Vec<u8> = Vec::new();
    let mut i: usize = 0;
    while i < files.len()
        invariant
            i <= files@.len(),
            data@ == hash_input(files@.take(i as int)),
        decreases files@.len() - i,
    {
        assert(files@.take(i + 1).drop_last() =~= files@.take(i as int));
        let (path, content) = (&files[i].0, &files[i].1);
        let pb = path.as_str().as_bytes();
        let mut k: usize = 0;
        let ghost start = data@;
        while k < pb.len()
            invariant
                k <= pb@.len(),
                data@ == start + pb@.take(k as int),
            decreases pb@.len() - k,
        {
            data.push(pb[k]);
            k = k + 1;
            assert(data@ =~= start + pb@.take(k as int));
        }
        assert(pb@.take(k as int) =~= pb@);
        let mut c: usize = 0;
        let ghost mid = data@;
        while c < content.len()
            invariant
                c <= content@.len(),
                data@ == mid + content@.take(c as int),
            decreases content@.len() - c,
        {
            data.push(content[c]);
            c = c + 1;
            assert(data@ =~= mid + content@.take(c as int));
        }
        assert(content@.take(c as int) =~= content@);
        i = i + 1;
        assert(data@ =~= hash_input(files@.take(i as int)));
    }
    assert(files@.take(i as int) =~= files@);
    let digest = sha256_digest(data.as_slice());
    hex_encode(digest.as_slice())
}

// ---------------------------------------------------------------------------
// Tree layout
// ---------------------------------------------------------------------------

/// The id of a node's parent: the FNV-1a hash of its context path up to the
/// last ` > `, or 0 for a top-level path.
pub open spec fn parent_hash(p: Seq<char>) -> u64 {
    match last_occurrence(p, " > "@) {
        Some(pos) => fnv1a_str(p.take(pos)),
        None => 0,
    }
}

/// Whether some path hashes to `x`.
pub open spec fn in_map(ps: Seq<Seq<char>>, x: u64) -> bool {
    exists|i: int| 0 <= i < ps.len() && #[trigger] fnv1a_str(ps[i]) == x
}

/// `i` is the last path that hashes to `x` (the one whose node is kept).
pub open spec fn is_last_with(ps: Seq<Seq<char>>, x: u64, i: int) -> bool {
    0 <= i < ps.len() && fnv1a_str(ps[i]) == x && forall|j: int| i < j < ps.len() ==> #[trigger] fnv1a_str(ps[j]) != x
}

/// The index of the node kept for id `x`.
pub open spec fn last_index(ps: Seq<Seq<char>>, x: u64) -> int {
    choose|i: int| is_last_with(ps, x, i)
}

/// The parent id recorded for id `x`.
pub open spec fn map_parent(ps: Seq<Seq<char>>, x: u64) -> u64 {
    parent_hash(ps[last_index(ps, x)])
}

/// The ids of the paths whose parent id is `x` (none for 0), in path order,
/// one per path.
pub open spec fn child_list(ps: Seq<Seq<char>>, x: u64) -> Seq<u64>
    decreases ps.len(),
{
    if ps.len() == 0 {
        Seq::empty()
    } else {
        child_list(ps.drop_last(), x) + if x != 0 && parent_hash(ps.last()) == x {
            seq![fnv1a_str(ps.last())]
        } else {
            Seq::empty()
        }
    }
}

/// `x` inserted into the ascending sequence `s` after the elements not above it.
pub open spec fn insert_sorted(s: Seq<u64>, x: u64) -> Seq<u64>
    decreases s.len(),
{
    if s.len() == 0 || s.last() <= x {
        s.push(x)
    } else {
        insert_sorted(s.drop_last(), x).push(s.last())
    }
}

/// `s` in ascending order.
pub open spec fn sort_ids(s: Seq<u64>) -> Seq<u64>
    decreases s.len(),
{
    if s.len() == 0 {
        s
    } else {
        insert_sorted(sort_ids(s.drop_last()), s.last())
    }
}

/// The children of `x`, in ascending id order.
pub open spec fn children(ps: Seq<Seq<char>>, x: u64) -> Seq<u64> {
    sort_ids(child_list(ps, x))
}

/// Every id once, in order of first appearance.
pub open spec fn distinct_ids(ps: Seq<Seq<char>>) -> Seq<u64>
    decreases ps.len(),
{
    if ps.len() == 0 {
        Seq::empty()
    } else {
        let d = distinct_ids(ps.drop_last());
        if d.contains(fnv1a_str(ps.last())) {
            d
        } else {
            d.push(fnv1a_str(ps.last()))
        }
    }
}

/// A root: its recorded parent id is 0 or belongs to no node.
pub open spec fn is_root(ps: Seq<Seq<char>>, x: u64) -> bool {
    map_parent(ps, x) == 0 || !in_map(ps, map_parent(ps, x))
}

/// The roots among `ids`, in order.
pub open spec fn root_list(ps: Seq<Seq<char>>, ids: Seq<u64>) -> Seq<u64>
    decreases ids.len(),
{
    if ids.len() == 0 {
        Seq::empty()
    } else {
        root_list(ps, ids.drop_last()) + if is_root(ps, ids.last()) {
            seq![ids.last()]
        } else {
            Seq::empty()
        }
    }
}

/// The root ids, ascending.
pub open spec fn roots(ps: Seq<Seq<char>>) -> Seq<u64> {
    sort_ids(root_list(ps, distinct_ids(ps)))
}

/// One entry of the packed tree.
pub struct PackedEntry {
    pub node_id: u64,
    pub parent_id: u64,
    pub child_count: u32,
    pub descendant_count: nat,
    pub source: int,
}

/// The preorder entries of the subtree of `x`, descending at most `fuel`
/// levels below it.
pub open spec fn subtree(ps: Seq<Seq<char>>, x: u64, fuel: nat) -> Seq<PackedEntry>
    decreases fuel, 0nat, 0nat,
{
    let rest = if fuel == 0 {
        Seq::empty()
    } else {
        forest(ps, children(ps, x), (fuel - 1) as nat)
    };
    seq![
        PackedEntry {
            node_id: x,
            parent_id: map_parent(ps, x),
            child_count: children(ps, x).len() as u32,
            descendant_count: rest.len(),
            source: last_index(ps, x),
        },
    ] + rest
}

/// The subtrees of the ids `cs`, one after another.
pub open spec fn forest(ps: Seq<Seq<char>>, cs: Seq<u64>, fuel: nat) -> Seq<PackedEntry>
    decreases fuel, 1nat, cs.len(),
{
    if cs.len() == 0 {
        Seq::empty()
    } else {
        forest(ps, cs.drop_last(), fuel) + subtree(ps, cs.last(), fuel)
    }
}

/// The packed tree: the subtrees of the roots in ascending id order, each in
/// preorder with children in ascending id order. The depth is capped at the
/// number of paths, which a tree over that many nodes never reaches.
pub open spec fn layout(ps: Seq<Seq<char>>) -> Seq<PackedEntry> {
    forest(ps, roots(ps), ps.len() + 1)
}

/// The descendant counts of `es` describe nested subtrees: every entry's
/// descendants follow it within the sequence, and the descendants of each of
/// them lie inside that range.
pub open spec fn well_nested(es: Seq<PackedEntry>) -> bool {
    forall|k: int|
        0 <= k < es.len() ==> {
            &&& k + 1 + (#[trigger] es[k]).descendant_count <= es.len()
            &&& forall|j: int| k < j <= k + es[k].descendant_count ==> j + (#[trigger] es[j]).descendant_count <= k + es[k].descendant_count
        }
}

proof fn lemma_nested_concat(a: Seq<PackedEntry>, b: Seq<PackedEntry>)
    requires
        well_nested(a),
        well_nested(b),
    ensures
        well_nested(a + b),
{
    let c = a + b;
    assert forall|k: int| 0 <= k < c.len() implies {
        &&& k + 1 + (#[trigger] c[k]).descendant_count <= c.len()
        &&& forall|j: int| k < j <= k + c[k].descendant_count ==> j + (#[trigger] c[j]).descendant_count <= k + c[k].descendant_count
    } by {
        if k < a.len() {
            assert(c[k] == a[k]);
            assert forall|j: int| k < j <= k + c[k].descendant_count implies j + (#[trigger] c[j]).descendant_count <= k
                + c[k].descendant_count by {
                assert(c[j] == a[j]);
            }
        } else {
            let kb = k - a.len();
            assert(c[k] == b[kb]);
            assert forall|j: int| k < j <= k + c[k].descendant_count implies j + (#[trigger] c[j]).descendant_count <= k
                + c[k].descendant_count by {
                assert(c[j] == b[j - a.len()]);
            }
        }
    }
}

proof fn lemma_nested_prepend(e: PackedEntry, rest: Seq<PackedEntry>)
    requires
        well_nested(rest),
        e.descendant_count == rest.len(),
    ensures
        well_nested(seq![e] + rest),
{
    let c = seq![e] + rest;
    assert forall|k: int| 0 <= k < c.len() implies {
        &&& k + 1 + (#[trigger] c[k]).descendant_count <= c.len()
        &&& forall|j: int| k < j <= k + c[k].descendant_count ==> j + (#[trigger] c[j]).descendant_count <= k + c[k].descendant_count
    } by {
        if k == 0 {
            assert forall|j: int| k < j <= k + c[k].descendant_count implies j + (#[trigger] c[j]).descendant_count <= k
                + c[k].descendant_count by {
                assert(c[j] == rest[j - 1]);
            }
        } else {
            assert(c[k] == rest[k - 1]);
            assert forall|j: int| k < j <= k + c[k].descendant_count implies j + (#[trigger] c[j]).descendant_count <= k
                + c[k].descendant_count by {
                assert(c[j] == rest[j - 1]);
            }
        }
    }
}

proof fn lemma_subtree_nested(ps: Seq<Seq<char>>, x: u64, fuel: nat)
    ensures
        well_nested(subtree(ps, x, fuel)),
    decreases fuel, 0nat, 0nat,
{
    if fuel > 0 {
        lemma_forest_nested(ps, children(ps, x), (fuel - 1) as nat);
    }
    let rest = if fuel == 0 {
        Seq::<PackedEntry>::empty()
    } else {
        forest(ps, children(ps, x), (fuel - 1) as nat)
    };
    lemma_nested_prepend(subtree(ps, x, fuel)[0], rest);
    assert(subtree(ps, x, fuel) =~= seq![subtree(ps, x, fuel)[0]] + rest);
}

proof fn lemma_forest_nested(ps: Seq<Seq<char>>, cs: Seq<u64>, fuel: nat)
    ensures
        well_nested(forest(ps, cs, fuel)),
    decreases fuel, 1nat, cs.len(),
{
    if cs.len() > 0 {
        lemma_forest_nested(ps, cs.drop_last(), fuel);
        lemma_subtree_nested(ps, cs.last(), fuel);
        lemma_nested_concat(forest(ps, cs.drop_last(), fuel), subtree(ps, cs.last(), fuel));
    }
}

/// In the packed tree every node's descendants directly follow it and nest:
/// passing over a node together with its descendant count never leaves the
/// subtree of the node's parent, which is what the search's subtree skip needs.
pub proof fn lemma_layout_nested(ps: Seq<Seq<char>>)
    ensures
        well_nested(layout(ps)),
{
    lemma_forest_nested(ps, roots(ps), ps.len() + 1);
}

// ---------------------------------------------------------------------------
// The depth cap is never reached
// ---------------------------------------------------------------------------

/// No two different paths share an id, and a parent id that belongs to a
/// node always belongs to the path's own parent path.
#[verifier::opaque]
pub open spec fn collision_free(ps: Seq<Seq<char>>) -> bool {
    &&& forall|i: int, j: int|
        0 <= i < ps.len() && 0 <= j < ps.len() && #[trigger] fnv1a_str(ps[i]) == #[trigger] fnv1a_str(ps[j])
            ==> ps[i] == ps[j]
    &&& forall|i: int, j: int|
        0 <= i < ps.len() && 0 <= j < ps.len() && last_occurrence(ps[i], " > "@) is Some
            && #[trigger] parent_hash(ps[i]) == #[trigger] fnv1a_str(ps[j]) ==> ps[j] == ps[i].take(
            last_occurrence(ps[i], " > "@)->0,
        )
}

/// The number of paths longer than `l` characters.
pub open spec fn longer(ps: Seq<Seq<char>>, l: int) -> nat
    decreases ps.len(),
{
    if ps.len() == 0 {
        0
    } else {
        longer(ps.drop_last(), l) + if ps.last().len() > l {
            1nat
        } else {
            0nat
        }
    }
}

/// The length of the path kept for id `x`.
pub open spec fn path_len(ps: Seq<Seq<char>>, x: u64) -> int {
    ps[last_index(ps, x)].len() as int
}

proof fn lemma_longer_bounded(ps: Seq<Seq<char>>, l: int)
    ensures
        longer(ps, l) <= ps.len(),
    decreases ps.len(),
{
    if ps.len() > 0 {
        lemma_longer_bounded(ps.drop_last(), l);
    }
}

proof fn lemma_longer_strict(ps: Seq<Seq<char>>, l1: int, l2: int, i: int)
    requires
        0 <= i < ps.len(),
        l1 < ps[i].len() <= l2,
    ensures
        longer(ps, l2) < longer(ps, l1),
    decreases ps.len(),
{
    lemma_longer_mono(ps.drop_last(), l1, l2);
    if i < ps.len() - 1 {
        assert(ps.drop_last()[i] == ps[i]);
        lemma_longer_strict(ps.drop_last(), l1, l2, i);
    }
}

proof fn lemma_longer_mono(ps: Seq<Seq<char>>, l1: int, l2: int)
    requires
        l1 <= l2,
    ensures
        longer(ps, l2) <= longer(ps, l1),
    decreases ps.len(),
{
    if ps.len() > 0 {
        lemma_longer_mono(ps.drop_last(), l1, l2);
    }
}

proof fn lemma_last_index(ps: Seq<Seq<char>>, x: u64)
    requires
        in_map(ps, x),
    ensures
        is_last_with(ps, x, last_index(ps, x)),
    decreases ps.len(),
{
    if fnv1a_str(ps.last()) == x {
        assert(is_last_with(ps, x, ps.len() - 1));
    } else {
        let w = choose|w: int| 0 <= w < ps.len() && #[trigger] fnv1a_str(ps[w]) == x;
        assert(ps.drop_last()[w] == ps[w]);
        assert(in_map(ps.drop_last(), x));
        lemma_last_index(ps.drop_last(), x);
        let k = last_index(ps.drop_last(), x);
        assert forall|j: int| k < j < ps.len() implies #[trigger] fnv1a_str(ps[j]) != x by {
            if j < ps.len() - 1 {
                assert(ps.drop_last()[j] == ps[j]);
            }
        }
        assert(ps.drop_last()[k] == ps[k]);
        assert(is_last_with(ps, x, k));
    }
}

/// Every id in a child list is the id of some path.
proof fn lemma_child_list_in_map(ps: Seq<Seq<char>>, x: u64)
    ensures
        forall|k: int| 0 <= k < child_list(ps, x).len() ==> in_map(ps, #[trigger] child_list(ps, x)[k]),
{
    assert forall|k: int| 0 <= k < child_list(ps, x).len() implies in_map(ps, #[trigger] child_list(ps, x)[k]) by {
        let c = child_list(ps, x)[k];
        assert(child_list(ps, x).contains(c));
        lemma_child_list_member(ps, x, c);
    }
}

proof fn lemma_child_list_member(ps: Seq<Seq<char>>, x: u64, c: u64)
    requires
        child_list(ps, x).contains(c),
    ensures
        exists|i: int|
            0 <= i < ps.len() && x != 0 && parent_hash(ps[i]) == x && #[trigger] fnv1a_str(ps[i]) == c,
    decreases ps.len(),
{
    let d = child_list(ps.drop_last(), x);
    if d.contains(c) {
        lemma_child_list_member(ps.drop_last(), x, c);
        let i = choose|i: int|
            0 <= i < ps.drop_last().len() && x != 0 && parent_hash(ps.drop_last()[i]) == x
                && #[trigger] fnv1a_str(ps.drop_last()[i]) == c;
        assert(ps.drop_last()[i] == ps[i]);
    } else {
        let w = choose|w: int| 0 <= w < child_list(ps, x).len() && child_list(ps, x)[w] == c;
        assert(w >= d.len()) by {
            if w < d.len() {
                assert(d[w] == c);
            }
        }
        assert(fnv1a_str(ps[ps.len() - 1]) == c);
    }
}

proof fn lemma_same_id_same_path(ps: Seq<Seq<char>>, i: int, j: int)
    requires
        collision_free(ps),
        0 <= i < ps.len(),
        0 <= j < ps.len(),
        fnv1a_str(ps[i]) == fnv1a_str(ps[j]),
    ensures
        ps[i] == ps[j],
{
    reveal(collision_free);
}

proof fn lemma_parent_path(ps: Seq<Seq<char>>, i: int, j: int)
    requires
        collision_free(ps),
        0 <= i < ps.len(),
        0 <= j < ps.len(),
        last_occurrence(ps[i], " > "@) is Some,
        parent_hash(ps[i]) == fnv1a_str(ps[j]),
    ensures
        ps[j] == ps[i].take(last_occurrence(ps[i], " > "@)->0),
{
    reveal(collision_free);
}

proof fn lemma_max_occurrence(s: Seq<char>, pat: Seq<char>, i: int)
    requires
        occurs_at(s, pat, i),
    ensures
        exists|q: int| occurs_at(s, pat, q) && forall|j: int| q < j ==> !#[trigger] occurs_at(s, pat, j),
    decreases s.len() - i,
{
    if exists|j: int| i < j && #[trigger] occurs_at(s, pat, j) {
        let j = choose|j: int| i < j && #[trigger] occurs_at(s, pat, j);
        lemma_max_occurrence(s, pat, j);
    } else {
        assert(occurs_at(s, pat, i) && forall|j: int| i < j ==> !#[trigger] occurs_at(s, pat, j));
    }
}

proof fn lemma_last_occurs(s: Seq<char>, pat: Seq<char>)
    requires
        last_occurrence(s, pat) is Some,
    ensures
        occurs_at(s, pat, last_occurrence(s, pat)->0),
{
    let i = choose|i: int| #[trigger] occurs_at(s, pat, i);
    lemma_max_occurrence(s, pat, i);
}

proof fn lemma_children_member(ps: Seq<Seq<char>>, x: u64, k: int)
    requires
        0 <= k < children(ps, x).len(),
    ensures
        exists|i: int|
            0 <= i < ps.len() && x != 0 && parent_hash(ps[i]) == x && #[trigger] fnv1a_str(ps[i]) == children(
                ps,
                x,
            )[k],
{
    broadcast use vstd::seq_lib::group_to_multiset_ensures;

    let cl = child_list(ps, x);
    let c = children(ps, x)[k];
    lemma_sort_ids_sorted(cl);
    assert(children(ps, x).contains(c));
    assert(children(ps, x).to_multiset().count(c) > 0);
    assert(cl.contains(c));
    lemma_child_list_member(ps, x, c);
}

/// A child of a node has a strictly longer path and fewer longer paths.
proof fn lemma_child_deeper(ps: Seq<Seq<char>>, x: u64, k: int)
    requires
        collision_free(ps),
        in_map(ps, x),
        0 <= k < children(ps, x).len(),
    ensures
        in_map(ps, children(ps, x)[k]),
        longer(ps, path_len(ps, children(ps, x)[k])) < longer(ps, path_len(ps, x)),
{
    let c = children(ps, x)[k];
    lemma_children_member(ps, x, k);
    let i = choose|i: int| 0 <= i < ps.len() && x != 0 && parent_hash(ps[i]) == x && #[trigger] fnv1a_str(ps[i]) == c;
    assert(in_map(ps, c));
    lemma_last_index(ps, c);
    lemma_last_index(ps, x);
    let lc = last_index(ps, c);
    let lx = last_index(ps, x);
    lemma_same_id_same_path(ps, lc, i);
    assert(last_occurrence(ps[i], " > "@) is Some);
    lemma_parent_path(ps, i, lx);
    lemma_last_occurs(ps[i], " > "@);
    assert(" > "@.len() > 0) by {
        reveal_strlit(" > ");
    }
    assert(ps[lx].len() < ps[i].len());
    lemma_longer_strict(ps, path_len(ps, x), path_len(ps, c), i);
}

proof fn lemma_subtree_stable(ps: Seq<Seq<char>>, x: u64, f1: nat, f2: nat)
    requires
        collision_free(ps),
        in_map(ps, x),
        f1 >= longer(ps, path_len(ps, x)),
        f2 >= f1,
    ensures
        subtree(ps, x, f1) == subtree(ps, x, f2),
    decreases longer(ps, path_len(ps, x)), 1nat, 0nat,
{
    let cs = children(ps, x);
    if cs.len() > 0 {
        lemma_child_deeper(ps, x, 0);
    }
    if f1 == 0 {
        assert(cs.len() == 0);
        assert(forest(ps, cs, (f2 - 1) as nat) =~= Seq::<PackedEntry>::empty());
    } else {
        assert forall|k: int| 0 <= k < cs.len() implies in_map(ps, #[trigger] cs[k]) && longer(ps, path_len(ps, cs[k]))
            < longer(ps, path_len(ps, x)) by {
            lemma_child_deeper(ps, x, k);
        }
        lemma_forest_stable(ps, cs, (f1 - 1) as nat, (f2 - 1) as nat, longer(ps, path_len(ps, x)));
    }
}

proof fn lemma_forest_stable(ps: Seq<Seq<char>>, cs: Seq<u64>, f1: nat, f2: nat, bound: nat)
    requires
        collision_free(ps),
        forall|k: int| 0 <= k < cs.len() ==> in_map(ps, #[trigger] cs[k]) && longer(ps, path_len(ps, cs[k])) < bound,
        bound <= f1 + 1,
        f2 >= f1,
    ensures
        forest(ps, cs, f1) == forest(ps, cs, f2),
    decreases bound, 0nat, cs.len(),
{
    if cs.len() > 0 {
        assert forall|k: int| 0 <= k < cs.drop_last().len() implies in_map(ps, #[trigger] cs.drop_last()[k]) && longer(
            ps,
            path_len(ps, cs.drop_last()[k]),
        ) < bound by {
            assert(cs.drop_last()[k] == cs[k]);
        }
        lemma_forest_stable(ps, cs.drop_last(), f1, f2, bound);
        assert(in_map(ps, cs[cs.len() - 1]));
        lemma_subtree_stable(ps, cs.last(), f1, f2);
    }
}

proof fn lemma_distinct_in_map(ps: Seq<Seq<char>>)
    ensures
        all_in_map(ps, distinct_ids(ps)),
    decreases ps.len(),
{
    if ps.len() > 0 {
        let d = distinct_ids(ps.drop_last());
        lemma_distinct_in_map(ps.drop_last());
        assert forall|k: int| 0 <= k < d.len() implies in_map(ps, #[trigger] d[k]) by {
            assert(in_map(ps.drop_last(), d[k]));
            let w = choose|w: int| 0 <= w < ps.drop_last().len() && #[trigger] fnv1a_str(ps.drop_last()[w]) == d[k];
            assert(ps.drop_last()[w] == ps[w]);
        }
        assert(fnv1a_str(ps[ps.len() - 1]) == fnv1a_str(ps.last()));
        assert forall|k: int| 0 <= k < distinct_ids(ps).len() implies in_map(ps, #[trigger] distinct_ids(ps)[k]) by {
            if k < d.len() {
                assert(distinct_ids(ps)[k] == d[k]);
            }
        }
    }
}

proof fn lemma_root_list_in_map(ps: Seq<Seq<char>>, ids: Seq<u64>)
    requires
        all_in_map(ps, ids),
    ensures
        all_in_map(ps, root_list(ps, ids)),
    decreases ids.len(),
{
    if ids.len() > 0 {
        assert(all_in_map(ps, ids.drop_last())) by {
            assert forall|k: int| 0 <= k < ids.drop_last().len() implies in_map(ps, #[trigger] ids.drop_last()[k]) by {
                assert(ids.drop_last()[k] == ids[k]);
            }
        }
        lemma_root_list_in_map(ps, ids.drop_last());
        let r = root_list(ps, ids.drop_last());
        assert(in_map(ps, ids[ids.len() - 1]));
        assert forall|k: int| 0 <= k < root_list(ps, ids).len() implies in_map(ps, #[trigger] root_list(ps, ids)[k]) by {
            if k < r.len() {
                assert(root_list(ps, ids)[k] == r[k]);
            }
        }
    }
}

/// On paths without hash collisions the depth cap of the layout is never
/// reached: allowing any deeper descent gives the same packed tree, so every
/// node's whole subtree is laid out.
pub proof fn lemma_layout_complete(ps: Seq<Seq<char>>, fuel: nat)
    requires
        collision_free(ps),
        fuel >= ps.len() + 1,
    ensures
        forest(ps, roots(ps), fuel) == layout(ps),
{
    lemma_distinct_in_map(ps);
    lemma_root_list_in_map(ps, distinct_ids(ps));
    lemma_sort_ids_in_map(ps, root_list(ps, distinct_ids(ps)));
    let rs = roots(ps);
    assert forall|k: int| 0 <= k < rs.len() implies in_map(ps, #[trigger] rs[k]) && longer(ps, path_len(ps, rs[k]))
        < ps.len() + 1 by {
        lemma_longer_bounded(ps, path_len(ps, rs[k]));
    }
    lemma_forest_stable(ps, rs, (ps.len() + 1) as nat, fuel, (ps.len() + 1) as nat);
}

/// One node of the packed tree: its id, its parent's id, its number of
/// children and of descendants, and the index of the stored node it shows.
pub struct PackedNode {
    pub node_id: u64,
    pub parent_id: u64,
    pub child_count: u32,
    pub descendant_count: u32,
    pub source: usize,
}

/// A packed node as plain values.
pub open spec fn packed_view(p: PackedNode) -> PackedEntry {
    PackedEntry {
        node_id: p.node_id,
        parent_id: p.parent_id,
        child_count: p.child_count,
        descendant_count: p.descendant_count as nat,
        source: p.source as int,
    }
}

/// Paths as character sequences.
pub open spec fn path_views(v: Seq<String>) -> Seq<Seq<char>> {
    v.map_values(|s: String| s@)
}

/// The parent id of a context path.
pub fn parent_id_of(path: &str) -> (r: u64)
    ensures
        r == parent_hash(path@),
{
    let cs = chars_of(path);
    let sep = chars_of(" > ");
    match rfind_chars(cs.as_slice(), sep.as_slice()) {
        Some(pos) => {
            let head = slice_chars(cs.as_slice(), 0, pos);
            assert(head@ =~= path@.take(pos as int));
            let s = string_from_chars(head.as_slice());
            calculate_fnv1a(s.as_str())
        },
        None => 0,
    }
}

fn insert_sorted_vec(s: Vec<u64>, x: u64) -> (r: Vec<u64>)
    ensures
        r@ == insert_sorted(s@, x),
    decreases s@.len(),
{
    let mut s = s;
    if s.len() == 0 || s[s.len() - 1] <= x {
        s.push(x);
        s
    } else {
        let ghost before = s@;
        let last = s.pop().unwrap();
        assert(s@ == before.drop_last());
        let mut r = insert_sorted_vec(s, x);
        r.push(last);
        r
    }
}

fn sort_vec(v: &Vec<u64>) -> (r: Vec<u64>)
    ensures
        r@ == sort_ids(v@),
{
    let mut out: Vec<u64> = Vec::new();
    let mut i: usize = 0;
    while i < v.len()
        invariant
            i <= v@.len(),
            out@ == sort_ids(v@.take(i as int)),
        decreases v@.len() - i,
    {
        assert(v@.take(i + 1).drop_last() =~= v@.take(i as int));
        out = insert_sorted_vec(out, v[i]);
        i = i + 1;
    }
    assert(v@.take(i as int) =~= v@);
    out
}

/// The ids and parent ids of all paths, computed once, with the node kept
/// for each id and the child list of each parent id.
struct TreeIndex {
    ids: Vec<u64>,
    parents: Vec<u64>,
    kept: HashMap<u64, usize>,
    child_lists: HashMap<u64, Vec<u64>>,
    paths: Ghost<Seq<Seq<char>>>,
}

/// The maps of the tree index over the paths `ps`: `kept` holds the last path
/// index of each id, `child_lists` the child list of each parent id that has one.
spec fn maps_ok(
    ps: Seq<Seq<char>>,
    kept: Map<u64, usize>,
    child_lists: Map<u64, Vec<u64>>,
) -> bool {
    &&& forall|x: u64| #[trigger] kept.contains_key(x) == in_map(ps, x)
    &&& forall|x: u64| #[trigger] kept.contains_key(x) ==> is_last_with(ps, x, kept[x] as int)
    &&& forall|x: u64| #[trigger] child_lists.contains_key(x) ==> child_lists[x]@ == child_list(ps, x)
    &&& forall|x: u64| !(#[trigger] child_lists.contains_key(x)) ==> child_list(ps, x) == Seq::<u64>::empty()
}

/// One path more: the id map of the first `i` paths, updated with path `i`.
#[verifier::rlimit(30)]
proof fn lemma_kept_step(ps: Seq<Seq<char>>, i: int, old_kept: Map<u64, usize>, kept: Map<u64, usize>)
    requires
        0 <= i < ps.len(),
        i <= usize::MAX,
        forall|x: u64| #[trigger] old_kept.contains_key(x) == in_map(ps.take(i), x),
        forall|x: u64| #[trigger] old_kept.contains_key(x) ==> is_last_with(ps.take(i), x, old_kept[x] as int),
        kept == old_kept.insert(fnv1a_str(ps[i]), i as usize),
    ensures
        forall|x: u64| #[trigger] kept.contains_key(x) == in_map(ps.take(i + 1), x),
        forall|x: u64| #[trigger] kept.contains_key(x) ==> is_last_with(ps.take(i + 1), x, kept[x] as int),
{
    let pre = ps.take(i);
    let post = ps.take(i + 1);
    let id = fnv1a_str(ps[i]);
    assert(post.drop_last() =~= pre);
    assert(post[i] == ps[i]);
    assert forall|x: u64| #[trigger] kept.contains_key(x) == in_map(post, x) by {
        if in_map(pre, x) {
            let w = choose|w: int| 0 <= w < pre.len() && #[trigger] fnv1a_str(pre[w]) == x;
            assert(post[w] == pre[w]);
        }
        if in_map(post, x) && x != id {
            let w = choose|w: int| 0 <= w < post.len() && #[trigger] fnv1a_str(post[w]) == x;
            assert(post[w] == pre[w]);
        }
        if x == id {
            assert(fnv1a_str(post[i]) == x);
        } else {
            assert(kept.contains_key(x) == old_kept.contains_key(x));
        }
    }
    assert forall|x: u64| #[trigger] kept.contains_key(x) implies is_last_with(post, x, kept[x] as int) by {
        if x != id {
            assert(old_kept.contains_key(x));
            let k = old_kept[x] as int;
            assert(kept[x] == old_kept[x]);
            assert(is_last_with(pre, x, k));
            assert forall|j: int| k < j < post.len() implies #[trigger] fnv1a_str(post[j]) != x by {
                if j < pre.len() {
                    assert(post[j] == pre[j]);
                    assert(fnv1a_str(pre[j]) != x);
                }
            }
            assert(post[k] == pre[k]);
        } else {
            assert(kept[x] as int == i);
            assert(is_last_with(post, x, i));
        }
    }
}

/// One path more: the child lists of the first `i` paths, updated with path `i`.
#[verifier::rlimit(30)]
proof fn lemma_lists_step(ps: Seq<Seq<char>>, i: int, old_lists: Map<u64, Vec<u64>>, lists: Map<u64, Vec<u64>>)
    requires
        0 <= i < ps.len(),
        forall|x: u64| #[trigger] old_lists.contains_key(x) ==> old_lists[x]@ == child_list(ps.take(i), x),
        forall|x: u64| !(#[trigger] old_lists.contains_key(x)) ==> child_list(ps.take(i), x) == Seq::<u64>::empty(),
        parent_hash(ps[i]) == 0 ==> lists == old_lists,
        parent_hash(ps[i]) != 0 ==> {
            &&& lists.dom() == old_lists.dom().insert(parent_hash(ps[i]))
            &&& forall|x: u64| x != parent_hash(ps[i]) && #[trigger] lists.contains_key(x) ==> lists[x] == old_lists[x]
            &&& lists[parent_hash(ps[i])]@ == (if old_lists.contains_key(parent_hash(ps[i])) {
                old_lists[parent_hash(ps[i])]@
            } else {
                Seq::<u64>::empty()
            }).push(fnv1a_str(ps[i]))
        },
    ensures
        forall|x: u64| #[trigger] lists.contains_key(x) ==> lists[x]@ == child_list(ps.take(i + 1), x),
        forall|x: u64| !(#[trigger] lists.contains_key(x)) ==> child_list(ps.take(i + 1), x) == Seq::<u64>::empty(),
{
    let pre = ps.take(i);
    let post = ps.take(i + 1);
    let id = fnv1a_str(ps[i]);
    let p = parent_hash(ps[i]);
    assert(post.drop_last() =~= pre);
    assert(post.last() == ps[i]);
    assert forall|x: u64| #[trigger] lists.contains_key(x) implies lists[x]@ == child_list(post, x) by {
        if p != 0 && x == p {
            if old_lists.contains_key(x) {
                assert(lists[x]@ =~= old_lists[x]@.push(id));
            } else {
                assert(lists[x]@ =~= seq![id]);
            }
        } else {
            assert(old_lists.contains_key(x));
        }
    }
    assert forall|x: u64| !(#[trigger] lists.contains_key(x)) implies child_list(post, x) == Seq::<u64>::empty() by {
        assert(!old_lists.contains_key(x));
    }
}

impl TreeIndex {
    spec fn wf(&self) -> bool {
        &&& self.ids@.len() == self.paths@.len()
        &&& self.parents@.len() == self.paths@.len()
        &&& forall|i: int| 0 <= i < self.ids@.len() ==> self.ids@[i] == fnv1a_str(#[trigger] self.paths@[i])
        &&& forall|i: int| 0 <= i < self.parents@.len() ==> self.parents@[i] == parent_hash(#[trigger] self.paths@[i])
        &&& maps_ok(self.paths@, self.kept@, self.child_lists@)
    }

    fn new(paths: &Vec<String>) -> (r: Self)
        ensures
            r.wf(),
            r.paths@ == path_views(paths@),
    {
        let mut ids: Vec<u64> = Vec::new();
        let mut parents: Vec<u64> = Vec::new();
        let mut kept: HashMap<u64, usize> = HashMap::new();
        let mut child_lists: HashMap<u64, Vec<u64>> = HashMap::new();
        let ghost ps = path_views(paths@);
        let mut i: usize = 0;
        proof {
            assert forall|x: u64| !in_map(ps.take(0), x) by {}
        }
        while i < paths.len()
            invariant
                i <= paths@.len(),
                ps == path_views(paths@),
                ids@.len() == i,
                parents@.len() == i,
                forall|k: int| 0 <= k < i ==> ids@[k] == fnv1a_str(#[trigger] ps[k]),
                forall|k: int| 0 <= k < i ==> parents@[k] == parent_hash(#[trigger] ps[k]),
                maps_ok(ps.take(i as int), kept@, child_lists@),
            decreases paths@.len() - i,
        {
            let id = calculate_fnv1a(paths[i].as_str());
            let p = parent_id_of(paths[i].as_str());
            ids.push(id);
            parents.push(p);
            let ghost pre = ps.take(i as int);
            let ghost post = ps.take(i + 1);
            let ghost old_kept = kept@;
            let ghost old_lists = child_lists@;
            kept.insert(id, i);
            if p != 0 {
                let mut v = match child_lists.remove(&p) {
                    Some(v) => v,
                    None => Vec::new(),
                };
                v.push(id);
                let ghost nv = v;
                child_lists.insert(p, v);
                proof {
                    assert(child_lists@ =~= old_lists.insert(p, nv));
                }
            }
            proof {
                lemma_kept_step(ps, i as int, old_kept, kept@);
                lemma_lists_step(ps, i as int, old_lists, child_lists@);
            }
            i = i + 1;
        }
        proof {
            assert(ps.take(i as int) =~= ps);
        }
        TreeIndex { ids, parents, kept, child_lists, paths: Ghost(ps) }
    }

    /// Whether some path hashes to `x`.
    fn contains_id(&self, x: u64) -> (r: bool)
        requires
            self.wf(),
        ensures
            r == in_map(self.paths@, x),
    {
        self.kept.contains_key(&x)
    }

    /// The index of the node kept for `x`.
    fn last_index_of(&self, x: u64) -> (r: usize)
        requires
            self.wf(),
            in_map(self.paths@, x),
        ensures
            r == last_index(self.paths@, x),
            is_last_with(self.paths@, x, r as int),
    {
        let ghost ps = self.paths@;
        assert(self.kept@.contains_key(x));
        let r = *self.kept.get(&x).unwrap();
        proof {
            let k = choose|k: int| is_last_with(ps, x, k);
            if k < r {
                assert(fnv1a_str(ps[r as int]) == x);
            } else if r < k {
                assert(fnv1a_str(ps[k]) == x);
            }
        }
        r
    }

    /// The children of `x`, ascending.
    fn children_of(&self, x: u64) -> (r: Vec<u64>)
        requires
            self.wf(),
        ensures
            r@ == children(self.paths@, x),
            forall|k: int| 0 <= k < r@.len() ==> in_map(self.paths@, #[trigger] r@[k]),
    {
        let ghost ps = self.paths@;
        let empty: Vec<u64> = Vec::new();
        let list = match self.child_lists.get(&x) {
            Some(v) => v,
            None => &empty,
        };
        assert(list@ == child_list(ps, x));
        proof {
            lemma_child_list_in_map(ps, x);
        }
        let sorted = sort_vec(list);
        proof {
            lemma_sort_ids_in_map(ps, list@);
        }
        sorted
    }

    /// The root ids, ascending.
    fn root_ids(&self) -> (r: Vec<u64>)
        requires
            self.wf(),
        ensures
            r@ == roots(self.paths@),
            forall|k: int| 0 <= k < r@.len() ==> in_map(self.paths@, #[trigger] r@[k]),
    {
        let ghost ps = self.paths@;
        let mut distinct: Vec<u64> = Vec::new();
        let mut i: usize = 0;
        while i < self.ids.len()
            invariant
                self.wf(),
                ps == self.paths@,
                i <= ps.len(),
                distinct@ == distinct_ids(ps.take(i as int)),
                forall|k: int| 0 <= k < distinct@.len() ==> in_map(ps, #[trigger] distinct@[k]),
            decreases ps.len() - i,
        {
            assert(ps.take(i + 1).drop_last() =~= ps.take(i as int));
            assert(ps.take(i + 1).last() == ps[i as int]);
            let x = self.ids[i];
            let mut seen = false;
            let mut k: usize = 0;
            while k < distinct.len()
                invariant
                    k <= distinct@.len(),
                    seen == exists|j: int| 0 <= j < k && distinct@[j] == x,
                decreases distinct@.len() - k,
            {
                if distinct[k] == x {
                    seen = true;
                }
                k = k + 1;
            }
            assert(seen == distinct@.contains(x));
            if !seen {
                distinct.push(x);
                assert(fnv1a_str(ps[i as int]) == x);
            }
            i = i + 1;
        }
        assert(ps.take(i as int) =~= ps);
        let mut list: Vec<u64> = Vec::new();
        let mut d: usize = 0;
        while d < distinct.len()
            invariant
                self.wf(),
                ps == self.paths@,
                d <= distinct@.len(),
                distinct@ == distinct_ids(ps),
                forall|k: int| 0 <= k < distinct@.len() ==> in_map(ps, #[trigger] distinct@[k]),
                list@ == root_list(ps, distinct@.take(d as int)),
                forall|k: int| 0 <= k < list@.len() ==> in_map(ps, #[trigger] list@[k]),
            decreases distinct@.len() - d,
        {
            assert(distinct@.take(d + 1).drop_last() =~= distinct@.take(d as int));
            let x = distinct[d];
            assert(in_map(ps, distinct@[d as int]));
            let li = self.last_index_of(x);
            let p = self.parents[li];
            if p == 0 || !self.contains_id(p) {
                list.push(x);
            }
            d = d + 1;
            assert(list@ =~= root_list(ps, distinct@.take(d as int)));
        }
        assert(distinct@.take(d as int) =~= distinct@);
        let sorted = sort_vec(&list);
        proof {
            lemma_sort_ids_in_map(ps, list@);
        }
        sorted
    }
}

/// Every id of `s` belongs to a node.
pub open spec fn all_in_map(ps: Seq<Seq<char>>, s: Seq<u64>) -> bool {
    forall|k: int| 0 <= k < s.len() ==> in_map(ps, #[trigger] s[k])
}

proof fn lemma_insert_sorted_in_map(ps: Seq<Seq<char>>, s: Seq<u64>, x: u64)
    requires
        all_in_map(ps, s),
        in_map(ps, x),
    ensures
        all_in_map(ps, insert_sorted(s, x)),
        insert_sorted(s, x).len() == s.len() + 1,
    decreases s.len(),
{
    if s.len() == 0 || s.last() <= x {
        assert forall|k: int| 0 <= k < s.push(x).len() implies in_map(ps, #[trigger] s.push(x)[k]) by {
            if k < s.len() {
                assert(s.push(x)[k] == s[k]);
            }
        }
    } else {
        assert(all_in_map(ps, s.drop_last())) by {
            assert forall|k: int| 0 <= k < s.drop_last().len() implies in_map(ps, #[trigger] s.drop_last()[k]) by {
                assert(s.drop_last()[k] == s[k]);
            }
        }
        lemma_insert_sorted_in_map(ps, s.drop_last(), x);
        let t = insert_sorted(s.drop_last(), x);
        assert(in_map(ps, s[s.len() - 1]));
        assert forall|k: int| 0 <= k < t.push(s.last()).len() implies in_map(ps, #[trigger] t.push(s.last())[k]) by {
            if k < t.len() {
                assert(t.push(s.last())[k] == t[k]);
            }
        }
    }
}

proof fn lemma_sort_ids_in_map(ps: Seq<Seq<char>>, s: Seq<u64>)
    requires
        all_in_map(ps, s),
    ensures
        all_in_map(ps, sort_ids(s)),
        sort_ids(s).len() == s.len(),
    decreases s.len(),
{
    if s.len() > 0 {
        assert(all_in_map(ps, s.drop_last())) by {
            assert forall|k: int| 0 <= k < s.drop_last().len() implies in_map(ps, #[trigger] s.drop_last()[k]) by {
                assert(s.drop_last()[k] == s[k]);
            }
        }
        lemma_sort_ids_in_map(ps, s.drop_last());
        assert(in_map(ps, s[s.len() - 1]));
        lemma_insert_sorted_in_map(ps, sort_ids(s.drop_last()), s.last());
    }
}

/// `s` is in ascending order.
pub open spec fn ascending(s: Seq<u64>) -> bool {
    forall|i: int, j: int| 0 <= i < j < s.len() ==> s[i] <= s[j]
}

/// Every element of `s` is at most `b`.
pub open spec fn all_at_most(s: Seq<u64>, b: u64) -> bool {
    forall|k: int| 0 <= k < s.len() ==> #[trigger] s[k] <= b
}

proof fn lemma_insert_sorted_bounded(s: Seq<u64>, x: u64, b: u64)
    requires
        all_at_most(s, b),
        x <= b,
    ensures
        all_at_most(insert_sorted(s, x), b),
    decreases s.len(),
{
    if !(s.len() == 0 || s.last() <= x) {
        assert(all_at_most(s.drop_last(), b)) by {
            assert forall|k: int| 0 <= k < s.drop_last().len() implies #[trigger] s.drop_last()[k] <= b by {
                assert(s.drop_last()[k] == s[k]);
            }
        }
        lemma_insert_sorted_bounded(s.drop_last(), x, b);
        assert(s[s.len() - 1] <= b);
    }
}

proof fn lemma_insert_sorted_ascending(s: Seq<u64>, x: u64)
    requires
        ascending(s),
    ensures
        ascending(insert_sorted(s, x)),
        insert_sorted(s, x).to_multiset() == s.to_multiset().insert(x),
    decreases s.len(),
{
    broadcast use vstd::seq_lib::group_to_multiset_ensures;

    if s.len() == 0 || s.last() <= x {
    } else {
        let d = s.drop_last();
        lemma_insert_sorted_ascending(d, x);
        let t = insert_sorted(d, x);
        assert(all_at_most(d, s.last()));
        lemma_insert_sorted_bounded(d, x, s.last());
        assert(s =~= d.push(s.last()));
        assert(t.push(s.last()).to_multiset() == d.to_multiset().insert(x).insert(s.last()));
        assert(s.to_multiset() == d.to_multiset().insert(s.last()));
        assert(d.to_multiset().insert(x).insert(s.last()) =~= d.to_multiset().insert(s.last()).insert(x));
    }
}

/// Sorting gives the same ids in ascending order: children and roots are
/// visited from the smallest id up.
pub proof fn lemma_sort_ids_sorted(s: Seq<u64>)
    ensures
        ascending(sort_ids(s)),
        sort_ids(s).to_multiset() == s.to_multiset(),
    decreases s.len(),
{
    broadcast use vstd::seq_lib::group_to_multiset_ensures;

    if s.len() > 0 {
        lemma_sort_ids_sorted(s.drop_last());
        lemma_insert_sorted_ascending(sort_ids(s.drop_last()), s.last());
        assert(s =~= s.drop_last().push(s.last()));
    }
}

/// Appends the subtree of `x` and returns its descendant count.
fn visit(index: &TreeIndex, x: u64, fuel: usize, out: &mut Vec<PackedNode>) -> (desc: u32)
    requires
        index.wf(),
        in_map(index.paths@, x),
        old(out)@.len() + subtree(index.paths@, x, fuel as nat).len() <= u32::MAX,
    ensures
        final(out)@.map_values(|p: PackedNode| packed_view(p)) == old(out)@.map_values(
            |p: PackedNode| packed_view(p),
        ) + subtree(index.paths@, x, fuel as nat),
        final(out)@.len() == old(out)@.len() + subtree(index.paths@, x, fuel as nat).len(),
        desc as nat == subtree(index.paths@, x, fuel as nat).len() - 1,
    decreases fuel, 0nat,
{
    let ghost ps = index.paths@;
    let ghost rest = if fuel == 0 {
        Seq::<PackedEntry>::empty()
    } else {
        forest(ps, children(ps, x), (fuel - 1) as nat)
    };
    let cs = index.children_of(x);
    let src = index.last_index_of(x);
    let parent = index.parents[src];
    let mut sub: Vec<PackedNode> = Vec::new();
    let mut total: u32 = 0;
    if fuel > 0 {
        total = visit_forest(index, &cs, fuel - 1, &mut sub);
    }
    assert(sub@.map_values(|p: PackedNode| packed_view(p)) =~= rest);
    let entry = PackedNode {
        node_id: x,
        parent_id: parent,
        child_count: cs.len() as u32,
        descendant_count: total,
        source: src,
    };
    assert(packed_view(entry) == subtree(ps, x, fuel as nat)[0]);
    let ghost before = out@;
    out.push(entry);
    out.append(&mut sub);
    assert(out@.map_values(|p: PackedNode| packed_view(p)) =~= before.map_values(|p: PackedNode| packed_view(p))
        + subtree(ps, x, fuel as nat));
    total
}

/// Appends the subtrees of the ids `cs` and returns the number of entries appended.
fn visit_forest(index: &TreeIndex, cs: &Vec<u64>, fuel: usize, out: &mut Vec<PackedNode>) -> (n: u32)
    requires
        index.wf(),
        forall|k: int| 0 <= k < cs@.len() ==> in_map(index.paths@, #[trigger] cs@[k]),
        old(out)@.len() + forest(index.paths@, cs@, fuel as nat).len() <= u32::MAX,
    ensures
        final(out)@.map_values(|p: PackedNode| packed_view(p)) == old(out)@.map_values(
            |p: PackedNode| packed_view(p),
        ) + forest(index.paths@, cs@, fuel as nat),
        final(out)@.len() == old(out)@.len() + forest(index.paths@, cs@, fuel as nat).len(),
        n as nat == forest(index.paths@, cs@, fuel as nat).len(),
    decreases fuel, 1nat,
{
    let ghost ps = index.paths@;
    let ghost start = old(out)@.map_values(|p: PackedNode| packed_view(p));
    let mut total: u32 = 0;
    let mut k: usize = 0;
    while k < cs.len()
        invariant
            index.wf(),
            ps == index.paths@,
            k <= cs@.len(),
            forall|j: int| 0 <= j < cs@.len() ==> in_map(ps, #[trigger] cs@[j]),
            start.len() + forest(ps, cs@, fuel as nat).len() <= u32::MAX,
            start == old(out)@.map_values(|p: PackedNode| packed_view(p)),
            out@.map_values(|p: PackedNode| packed_view(p)) == start + forest(ps, cs@.take(k as int), fuel as nat),
            out@.len() == start.len() + forest(ps, cs@.take(k as int), fuel as nat).len(),
            total as nat == forest(ps, cs@.take(k as int), fuel as nat).len(),
        decreases cs@.len() - k,
    {
        assert(cs@.take(k + 1).drop_last() =~= cs@.take(k as int));
        assert(cs@.take(k + 1).last() == cs@[k as int]);
        proof {
            lemma_forest_prefix_len(ps, cs@, fuel as nat, k as int + 1);
            assert(forest(ps, cs@.take(k + 1), fuel as nat) == forest(ps, cs@.take(k as int), fuel as nat) + subtree(
                ps,
                cs@[k as int],
                fuel as nat,
            ));
        }
        let d = visit(index, cs[k], fuel, out);
        total = total + 1 + d;
        k = k + 1;
        assert(out@.map_values(|p: PackedNode| packed_view(p)) =~= start + forest(ps, cs@.take(k as int), fuel as nat));
    }
    assert(cs@.take(k as int) =~= cs@);
    total
}

proof fn lemma_forest_prefix_len(ps: Seq<Seq<char>>, cs: Seq<u64>, fuel: nat, k: int)
    requires
        0 <= k <= cs.len(),
    ensures
        forest(ps, cs.take(k), fuel).len() <= forest(ps, cs, fuel).len(),
    decreases cs.len() - k,
{
    if k < cs.len() {
        lemma_forest_prefix_len(ps, cs, fuel, k + 1);
        assert(cs.take(k + 1).drop_last() =~= cs.take(k));
    } else {
        assert(cs.take(k) =~= cs);
    }
}

/// Lays the knowledge tree out for packing. A node's id is the FNV-1a hash of
/// its context path and its parent's id that of the path up to the last
/// ` > `; of paths with the same id the last one's node is kept. Roots (no
/// parent, or a parent that is no node) come in ascending id order, and below
/// each node its children in ascending id order, in preorder, every entry with
/// its child and descendant counts.
pub fn layout_knowledge_tree(paths: &Vec<String>) -> (r: Vec<PackedNode>)
    requires
        paths@.len() < usize::MAX,
        layout(path_views(paths@)).len() <= u32::MAX,
    ensures
        r@.map_values(|p: PackedNode| packed_view(p)) == layout(path_views(paths@)),
{
    let index = TreeIndex::new(paths);
    let roots = index.root_ids();
    let mut out: Vec<PackedNode> = Vec::new();
    let fuel = paths.len() + 1;
    visit_forest(&index, &roots, fuel, &mut out);
    assert(out@.map_values(|p: PackedNode| packed_view(p)) =~= layout(path_views(paths@)));
    out
}

/// `n` capped at one past `u32::MAX`.
pub open spec fn capped(n: nat) -> nat {
    if n > u32::MAX as nat + 1 {
        u32::MAX as nat + 1
    } else {
        n
    }
}

/// The number of entries of `subtree(x, fuel)`, capped.
fn subtree_size(index: &TreeIndex, x: u64, fuel: usize) -> (r: u64)
    requires
        index.wf(),
        in_map(index.paths@, x),
    ensures
        r as nat == capped(subtree(index.paths@, x, fuel as nat).len()),
    decreases fuel, 0nat,
{
    let ghost ps = index.paths@;
    if fuel == 0 {
        return 1;
    }
    let cs = index.children_of(x);
    let below = forest_size(index, &cs, fuel - 1);
    if below > u32::MAX as u64 {
        (u32::MAX as u64) + 1
    } else {
        below + 1
    }
}

/// The number of entries of `forest(cs, fuel)`, capped.
fn forest_size(index: &TreeIndex, cs: &Vec<u64>, fuel: usize) -> (r: u64)
    requires
        index.wf(),
        forall|k: int| 0 <= k < cs@.len() ==> in_map(index.paths@, #[trigger] cs@[k]),
    ensures
        r as nat == capped(forest(index.paths@, cs@, fuel as nat).len()),
    decreases fuel, 1nat,
{
    let ghost ps = index.paths@;
    let mut total: u64 = 0;
    let mut k: usize = 0;
    while k < cs.len()
        invariant
            index.wf(),
            ps == index.paths@,
            k <= cs@.len(),
            forall|j: int| 0 <= j < cs@.len() ==> in_map(ps, #[trigger] cs@[j]),
            total as nat == capped(forest(ps, cs@.take(k as int), fuel as nat).len()),
        decreases cs@.len() - k,
    {
        assert(cs@.take(k + 1).drop_last() =~= cs@.take(k as int));
        assert(cs@.take(k + 1).last() == cs@[k as int]);
        assert(forest(ps, cs@.take(k + 1), fuel as nat) == forest(ps, cs@.take(k as int), fuel as nat) + subtree(
            ps,
            cs@[k as int],
            fuel as nat,
        ));
        let d = subtree_size(index, cs[k], fuel);
        if total + d > u32::MAX as u64 + 1 {
            total = u32::MAX as u64 + 1;
        } else {
            total = total + d;
        }
        k = k + 1;
    }
    assert(cs@.take(k as int) =~= cs@);
    total
}

/// Lays the knowledge tree out as `layout_knowledge_tree` does when the
/// layout has at most `u32::MAX` entries (so that every child and descendant
/// count fits its field); `None` exactly when it has more.
pub fn layout_knowledge_tree_checked(paths: &Vec<String>) -> (r: Option<Vec<PackedNode>>)
    requires
        paths@.len() < usize::MAX,
    ensures
        match r {
            Some(v) => layout(path_views(paths@)).len() <= u32::MAX && v@.map_values(
                |p: PackedNode| packed_view(p),
            ) == layout(path_views(paths@)),
            None => layout(path_views(paths@)).len() > u32::MAX,
        },
{
    let index = TreeIndex::new(paths);
    let roots = index.root_ids();
    let size = forest_size(&index, &roots, paths.len() + 1);
    if size > u32::MAX as u64 {
        None
    } else {
        Some(layout_knowledge_tree(paths))
    }
}

} // verus!
