//! The Flat-AST: context nodes packed into one byte buffer.
//!
//! Every node is a 16-byte little-endian header (node id, payload length,
//! flags, priority, child count) followed by its UTF-8 payload and zero
//! padding up to the next multiple of 16 bytes.  Nodes are never moved or
//! removed: pruning and deletion only clear the `Active` bit of a header.
use vstd::prelude::*;
use vstd::utf8::{encode_utf8, decode_utf8, valid_utf8};
use crate::text::{decimal, hex_fixed, push_decimal, push_hex_fixed, utf8_str};

verus! {


/// FNV-1a offset basis (64 bit).
pub const FNV_OFFSET: u64 = 0xcbf29ce484222325;

/// FNV-1a prime (64 bit).
pub const FNV_PRIME: u64 = 0x100000001b3;

/// One FNV-1a round: xor the byte in, then multiply modulo 2^64.
pub open spec fn fnv1a_step(hash: u64, byte: u8) -> u64 {
    (((hash ^ (byte as u64)) as nat * FNV_PRIME as nat) % 0x1_0000_0000_0000_0000nat) as u64
}

/// FNV-1a hash of a byte sequence.
pub open spec fn fnv1a_bytes(bytes: Seq<u8>) -> u64
    decreases bytes.len(),
{
    if bytes.len() == 0 {
        FNV_OFFSET
    } else {
        fnv1a_step(fnv1a_bytes(bytes.drop_last()), bytes.last())
    }
}

/// FNV-1a hash of the UTF-8 encoding of a string.
pub open spec fn fnv1a_str(s: Seq<char>) -> u64 {
    fnv1a_bytes(encode_utf8(s))
}

/// Computes the 64-bit FNV-1a hash of the UTF-8 bytes of `s`; used as a deterministic node id.
pub fn calculate_fnv1a(s: &str) -> (hash: u64)
    ensures
        hash == fnv1a_str(s@),
{
    let bytes = s.as_bytes();
    let mut hash: u64 = FNV_OFFSET;
    let mut i: usize = 0;
    while i < bytes.len()
        invariant
            i <= bytes@.len(),
            bytes@ == encode_utf8(s@),
            hash == fnv1a_bytes(bytes@.take(i as int)),
        decreases bytes@.len() - i,
    {
        assert(bytes@.take(i + 1).drop_last() == bytes@.take(i as int));
        hash = (hash ^ (bytes[i] as u64)).wrapping_mul(FNV_PRIME);
        i = i + 1;
    }
    assert(bytes@.take(i as int) == bytes@);
    hash
}

/// Importance tier of a sub-node; the tier value is stored in the sub-node's priority byte.
/// Tier3 is dropped first, then Tier2; Tier1 is never dropped.
#[derive(Debug, Clone, Copy, PartialEq, Eq, PartialOrd, Ord)]
pub enum PriorityTier {
    Tier1,
    Tier2,
    Tier3,
}

impl PriorityTier {
    /// The numeric tier as stored in a header's priority byte.
    pub open spec fn spec_value(self) -> u8 {
        match self {
            PriorityTier::Tier1 => 1,
            PriorityTier::Tier2 => 2,
            PriorityTier::Tier3 => 3,
        }
    }

    /// The numeric tier as stored in a header's priority byte (1, 2 or 3).
    pub fn value(self) -> (v: u8)
        ensures
            v == self.spec_value(),
    {
        match self {
            PriorityTier::Tier1 => 1,
            PriorityTier::Tier2 => 2,
            PriorityTier::Tier3 => 3,
        }
    }
}

/// The 16-byte header of a node.
/// Flags: bit 0 Active, bit 1 IsSubNode, bits 2-3 node type
/// (0 System, 1 Instruction, 2 Reference, 3 History).
#[derive(Debug, Clone, Copy, PartialEq, Eq, Structural)]
pub struct FlatASTHeader {
    pub node_id: u64,
    pub payload_len: u32,
    pub flags: u8,
    pub priority: u8,
    pub child_count: u16,
}

impl FlatASTHeader {
    /// The Active bit.
    pub open spec fn active(self) -> bool {
        (self.flags & 1u8) != 0u8
    }

    /// The IsSubNode bit.
    pub open spec fn sub(self) -> bool {
        (self.flags & 2u8) != 0u8
    }

    /// The two node-type bits.
    pub open spec fn kind(self) -> u8 {
        (self.flags >> 2u8) & 3u8
    }

    /// The same header with the Active bit cleared.
    pub open spec fn deactivated(self) -> FlatASTHeader {
        FlatASTHeader { flags: self.flags & 0xfeu8, ..self }
    }

    /// Whether the node is active (not logically deleted).
    pub fn is_active(&self) -> (r: bool)
        ensures
            r == self.active(),
    {
        (self.flags & 0x01) != 0
    }

    /// Whether the node is a sub-node of the preceding node.
    pub fn is_subnode(&self) -> (r: bool)
        ensures
            r == self.sub(),
    {
        (self.flags & 0x02) != 0
    }

    /// The node type (0: System, 1: Instruction, 2: Reference, 3: History).
    pub fn node_type(&self) -> (r: u8)
        ensures
            r == self.kind(),
            r <= 3,
    {
        proof {
            let f = self.flags;
            assert((f >> 2u8) & 3u8 <= 3u8) by (bit_vector);
        }
        (self.flags >> 2) & 0x03
    }
}

/// Clearing the Active bit keeps the sub-node bit and the node type.
pub proof fn lemma_deactivated_bits(h: FlatASTHeader)
    ensures
        !h.deactivated().active(),
        h.deactivated().sub() == h.sub(),
        h.deactivated().kind() == h.kind(),
        h.deactivated().deactivated() == h.deactivated(),
        h.deactivated().payload_len == h.payload_len,
{
    let f = h.flags;
    assert((f & 0xfeu8) & 1u8 == 0u8) by (bit_vector);
    assert(((f & 0xfeu8) & 2u8 != 0u8) == (f & 2u8 != 0u8)) by (bit_vector);
    assert(((f & 0xfeu8) >> 2u8) & 3u8 == (f >> 2u8) & 3u8) by (bit_vector);
    assert((f & 0xfeu8) & 0xfeu8 == f & 0xfeu8) by (bit_vector);
}

/// The flags byte written by `push_node`: active, sub-node bit, and the low two bits of the type.
pub open spec fn push_flags(node_type: u8, is_subnode: bool) -> u8 {
    (1u8 | (if is_subnode { 2u8 } else { 0u8 })) | ((node_type & 3u8) << 2u8)
}

pub proof fn lemma_push_flags(node_type: u8, is_subnode: bool)
    ensures
        (FlatASTHeader { node_id: 0, payload_len: 0, flags: push_flags(node_type, is_subnode), priority: 0, child_count: 0 }).active(),
        (FlatASTHeader { node_id: 0, payload_len: 0, flags: push_flags(node_type, is_subnode), priority: 0, child_count: 0 }).sub() == is_subnode,
        (FlatASTHeader { node_id: 0, payload_len: 0, flags: push_flags(node_type, is_subnode), priority: 0, child_count: 0 }).kind() == node_type & 3u8,
{
    let t = node_type;
    assert(((1u8 | 2u8) | ((t & 3u8) << 2u8)) & 1u8 != 0u8) by (bit_vector);
    assert(((1u8 | 0u8) | ((t & 3u8) << 2u8)) & 1u8 != 0u8) by (bit_vector);
    assert(((1u8 | 2u8) | ((t & 3u8) << 2u8)) & 2u8 != 0u8) by (bit_vector);
    assert(((1u8 | 0u8) | ((t & 3u8) << 2u8)) & 2u8 == 0u8) by (bit_vector);
    assert((((1u8 | 2u8) | ((t & 3u8) << 2u8)) >> 2u8) & 3u8 == t & 3u8) by (bit_vector);
    assert((((1u8 | 0u8) | ((t & 3u8) << 2u8)) >> 2u8) & 3u8 == t & 3u8) by (bit_vector);
}

/// The header of a node as `push_node` writes it.
pub open spec fn pushed_header(node_id: u64, node_type: u8, priority: u8, is_subnode: bool, child_count: u16, payload: Seq<char>) -> FlatASTHeader {
    FlatASTHeader {
        node_id,
        payload_len: encode_utf8(payload).len() as u32,
        flags: push_flags(node_type, is_subnode),
        priority,
        child_count,
    }
}

/// A node as the library sees it: its header and its payload text.
pub type FlatNode = (FlatASTHeader, Seq<char>);

/// The header's payload length is the byte length of the UTF-8 payload.
pub open spec fn node_wf(n: FlatNode) -> bool {
    n.0.payload_len as nat == encode_utf8(n.1).len()
}

/// The 16 header bytes, all integers little-endian.
pub open spec fn header_bytes(h: FlatASTHeader) -> Seq<u8> {
    let id = h.node_id;
    let len = h.payload_len;
    let cc = h.child_count;
    seq![
        id as u8, (id >> 8u64) as u8, (id >> 16u64) as u8, (id >> 24u64) as u8,
        (id >> 32u64) as u8, (id >> 40u64) as u8, (id >> 48u64) as u8, (id >> 56u64) as u8,
        len as u8, (len >> 8u32) as u8, (len >> 16u32) as u8, (len >> 24u32) as u8,
        h.flags, h.priority, cc as u8, (cc >> 8u16) as u8,
    ]
}

/// Number of zero bytes that bring a payload of `len` bytes up to a multiple of 16.
pub open spec fn pad_len(len: nat) -> nat {
    ((16 - (len % 16)) % 16) as nat
}

pub open spec fn zeros(n: nat) -> Seq<u8> {
    Seq::new(n, |i: int| 0u8)
}

/// The bytes of one node: header, payload, padding.
pub open spec fn encode_node(n: FlatNode) -> Seq<u8> {
    header_bytes(n.0) + encode_utf8(n.1) + zeros(pad_len(encode_utf8(n.1).len()))
}

/// The bytes of a sequence of nodes, one after another.
pub open spec fn encode_nodes(ns: Seq<FlatNode>) -> Seq<u8>
    decreases ns.len(),
{
    if ns.len() == 0 {
        Seq::empty()
    } else {
        encode_nodes(ns.drop_last()) + encode_node(ns.last())
    }
}

/// Size in bytes of a node's record (a multiple of 16).
pub open spec fn record_len(h: FlatASTHeader) -> nat {
    16 + h.payload_len as nat + pad_len(h.payload_len as nat)
}

/// Byte offset at which node `k` starts.
pub open spec fn node_offset(ns: Seq<FlatNode>, k: int) -> nat
    decreases k,
{
    if k <= 0 {
        0
    } else {
        node_offset(ns, k - 1) + record_len(ns[k - 1].0)
    }
}

pub open spec fn all_nodes_wf(ns: Seq<FlatNode>) -> bool {
    forall|k: int| 0 <= k < ns.len() ==> #[trigger] node_wf(ns[k])
}

/// Sum of payload lengths of the nodes `i < m` for which `pred(i)` holds.
pub open spec fn tokens_where(ns: Seq<FlatNode>, pred: spec_fn(int) -> bool, m: int) -> int
    decreases m,
{
    if m <= 0 {
        0
    } else {
        tokens_where(ns, pred, m - 1) + if pred(m - 1) {
            ns[m - 1].0.payload_len as int
        } else {
            0
        }
    }
}

/// The token count of a node sequence: payload bytes of its active nodes.
pub open spec fn active_tokens(ns: Seq<FlatNode>) -> int {
    tokens_where(ns, |i: int| ns[i].0.active(), ns.len() as int)
}

/// Replace the header of every node satisfying `pred` by its deactivated form.
pub open spec fn deactivate_where(ns: Seq<FlatNode>, pred: spec_fn(int) -> bool) -> Seq<FlatNode> {
    Seq::new(ns.len(), |k: int| if pred(k) { (ns[k].0.deactivated(), ns[k].1) } else { ns[k] })
}

/// Nodes that the first pruning stage may deactivate: active, not System or
/// Instruction, priority above 0, not a sub-node.
pub open spec fn is_candidate(h: FlatASTHeader) -> bool {
    h.active() && !(h.kind() == 0 || h.kind() == 1 || h.priority == 0 || h.sub())
}

/// Eviction order: node `i` is evicted before node `j` when its priority value
/// is larger, or equal and it lies later in the buffer.
pub open spec fn evicted_before(ns: Seq<FlatNode>, i: int, j: int) -> bool {
    ns[i].0.priority > ns[j].0.priority || (ns[i].0.priority == ns[j].0.priority && i > j)
}

/// Tokens of the candidates that come before node `j` in the eviction order.
pub open spec fn tokens_ahead(ns: Seq<FlatNode>, j: int) -> int {
    tokens_where(ns, |i: int| is_candidate(ns[i].0) && evicted_before(ns, i, j), ns.len() as int)
}

/// The first stage deactivates candidate `j` exactly when, after every
/// candidate ahead of it has been removed, the token count still exceeds the limit.
pub open spec fn first_stage_evicts(ns: Seq<FlatNode>, limit: u32, j: int) -> bool {
    is_candidate(ns[j].0) && active_tokens(ns) - tokens_ahead(ns, j) > limit
}

pub open spec fn after_first_stage(ns: Seq<FlatNode>, limit: u32) -> Seq<FlatNode> {
    deactivate_where(ns, |j: int| first_stage_evicts(ns, limit, j))
}

/// Deactivates every sub-node whose priority byte equals `tier`.
pub open spec fn deactivate_tier(ns: Seq<FlatNode>, tier: u8) -> Seq<FlatNode> {
    deactivate_where(ns, |j: int| ns[j].0.sub() && ns[j].0.priority == tier)
}

/// The node sequence after `prune(limit)`: the first stage, then (only while
/// the count still exceeds the limit) Tier3 sub-nodes, then Tier2 sub-nodes.
pub open spec fn pruned(ns: Seq<FlatNode>, limit: u32) -> Seq<FlatNode> {
    let s1 = after_first_stage(ns, limit);
    if active_tokens(s1) <= limit {
        s1
    } else {
        let s2 = deactivate_tier(s1, 3);
        if active_tokens(s2) <= limit {
            s2
        } else {
            deactivate_tier(s2, 2)
        }
    }
}

/// Index of the first node with the given id, if any.
pub open spec fn first_with_id(ns: Seq<FlatNode>, id: u64, k: int) -> bool {
    0 <= k < ns.len() && ns[k].0.node_id == id && forall|j: int| 0 <= j < k ==> ns[j].0.node_id != id
}

/// The compact prompt line of one node.
pub open spec fn dsl_line(n: FlatNode) -> Seq<char> {
    let h = n.0;
    if h.sub() {
        "  └─ #Sub["@ + decimal(h.node_id as nat) + "]: "@ + n.1 + "\n"@
    } else if h.kind() == 0 {
        "#S: "@ + n.1 + "\n"@
    } else if h.kind() == 1 {
        "#I: "@ + n.1 + "\n"@
    } else if h.kind() == 2 {
        "#R["@ + decimal(h.node_id as nat) + ","@ + decimal(h.priority as nat) + "]: "@ + n.1 + "\n"@
    } else if h.kind() == 3 {
        "#H["@ + decimal(h.node_id as nat) + "]: "@ + n.1 + "\n"@
    } else {
        "#?: "@ + n.1 + "\n"@
    }
}

/// The human-readable section of one node.
pub open spec fn human_section(n: FlatNode) -> Seq<char> {
    let h = n.0;
    if h.sub() {
        "  └─ ■ SUB-NODE [ID: "@ + hex_fixed(h.node_id as nat, 16) + "]: "@ + n.1 + "\n\n"@
    } else if h.kind() == 0 {
        "■ SYSTEM CONSTRAINT (システム制約)\n"@ + n.1 + "\n\n"@
    } else if h.kind() == 1 {
        "■ ACTIVE GOAL (実行目標)\n"@ + n.1 + "\n\n"@
    } else if h.kind() == 2 {
        "■ REFERENCE KNOWLEDGE [ID: "@ + hex_fixed(h.node_id as nat, 16) + ", Priority: "@
            + decimal(h.priority as nat) + "] (参照知識)\n"@ + n.1 + "\n\n"@
    } else if h.kind() == 3 {
        "■ CONVERSATION HISTORY [ID: "@ + hex_fixed(h.node_id as nat, 16) + "] (対話履歴)\n"@ + n.1
            + "\n\n"@
    } else {
        "■ UNKNOWN NODE [Type: "@ + decimal(h.kind() as nat) + "]\n"@ + n.1 + "\n\n"@
    }
}

/// Concatenation of `line(n)` over the active nodes, in order.
pub open spec fn render_active(ns: Seq<FlatNode>, line: spec_fn(FlatNode) -> Seq<char>) -> Seq<char>
    decreases ns.len(),
{
    if ns.len() == 0 {
        Seq::empty()
    } else {
        render_active(ns.drop_last(), line) + if ns.last().0.active() {
            line(ns.last())
        } else {
            Seq::empty()
        }
    }
}

pub open spec fn human_title() -> Seq<char> {
    "=== FLAT-AST HUMAN-READABLE CONTEXT DOCUMENT ===\n\n"@
}

// ---------------------------------------------------------------------------
// Lemmas on the encoding
// ---------------------------------------------------------------------------

pub proof fn lemma_u64_le(x: u64, b0: u8, b1: u8, b2: u8, b3: u8, b4: u8, b5: u8, b6: u8, b7: u8)
    requires
        b0 == x as u8, b1 == (x >> 8u64) as u8, b2 == (x >> 16u64) as u8, b3 == (x >> 24u64) as u8,
        b4 == (x >> 32u64) as u8, b5 == (x >> 40u64) as u8, b6 == (x >> 48u64) as u8, b7 == (x >> 56u64) as u8,
    ensures
        (b0 as u64) | ((b1 as u64) << 8u64) | ((b2 as u64) << 16u64) | ((b3 as u64) << 24u64)
            | ((b4 as u64) << 32u64) | ((b5 as u64) << 40u64) | ((b6 as u64) << 48u64)
            | ((b7 as u64) << 56u64) == x,
{
    assert((b0 as u64) | ((b1 as u64) << 8u64) | ((b2 as u64) << 16u64) | ((b3 as u64) << 24u64)
        | ((b4 as u64) << 32u64) | ((b5 as u64) << 40u64) | ((b6 as u64) << 48u64)
        | ((b7 as u64) << 56u64) == x) by (bit_vector)
        requires
            b0 == x as u8, b1 == (x >> 8u64) as u8, b2 == (x >> 16u64) as u8, b3 == (x >> 24u64) as u8,
            b4 == (x >> 32u64) as u8, b5 == (x >> 40u64) as u8, b6 == (x >> 48u64) as u8, b7 == (x >> 56u64) as u8;
}

pub proof fn lemma_u32_le(x: u32, b0: u8, b1: u8, b2: u8, b3: u8)
    requires
        b0 == x as u8, b1 == (x >> 8u32) as u8, b2 == (x >> 16u32) as u8, b3 == (x >> 24u32) as u8,
    ensures
        (b0 as u32) | ((b1 as u32) << 8u32) | ((b2 as u32) << 16u32) | ((b3 as u32) << 24u32) == x,
{
    assert((b0 as u32) | ((b1 as u32) << 8u32) | ((b2 as u32) << 16u32) | ((b3 as u32) << 24u32) == x)
        by (bit_vector)
        requires
            b0 == x as u8, b1 == (x >> 8u32) as u8, b2 == (x >> 16u32) as u8, b3 == (x >> 24u32) as u8;
}

pub proof fn lemma_u16_le(x: u16, b0: u8, b1: u8)
    requires
        b0 == x as u8, b1 == (x >> 8u16) as u8,
    ensures
        (b0 as u16) | ((b1 as u16) << 8u16) == x,
{
    assert((b0 as u16) | ((b1 as u16) << 8u16) == x) by (bit_vector)
        requires
            b0 == x as u8, b1 == (x >> 8u16) as u8;
}

pub proof fn lemma_record_len(n: FlatNode)
    requires
        node_wf(n),
    ensures
        encode_node(n).len() == record_len(n.0),
        record_len(n.0) % 16 == 0,
        record_len(n.0) >= 16,
{
    let l = n.0.payload_len as nat;
    assert(((16 + l + pad_len(l)) % 16) == 0) by {
        vstd::arithmetic::div_mod::lemma_fundamental_div_mod(l as int, 16);
    }
}

pub proof fn lemma_encode_concat(a: Seq<FlatNode>, b: Seq<FlatNode>)
    ensures
        encode_nodes(a + b) == encode_nodes(a) + encode_nodes(b),
    decreases b.len(),
{
    if b.len() == 0 {
        assert(a + b =~= a);
        assert(encode_nodes(a) + encode_nodes(b) =~= encode_nodes(a));
    } else {
        assert((a + b).drop_last() =~= a + b.drop_last());
        assert((a + b).last() == b.last());
        lemma_encode_concat(a, b.drop_last());
        assert(encode_nodes(a + b) =~= encode_nodes(a) + encode_nodes(b));
    }
}

pub proof fn lemma_encode_len(ns: Seq<FlatNode>, k: int)
    requires
        all_nodes_wf(ns),
        0 <= k <= ns.len(),
    ensures
        encode_nodes(ns.take(k)).len() == node_offset(ns, k),
        node_offset(ns, k) % 16 == 0,
    decreases k,
{
    if k > 0 {
        lemma_encode_len(ns, k - 1);
        assert(ns.take(k).drop_last() =~= ns.take(k - 1));
        assert(node_wf(ns[k - 1]));
        lemma_record_len(ns[k - 1]);
    }
}

/// The encoding of `ns` splits around node `k` at offset `node_offset(ns, k)`.
pub proof fn lemma_split(ns: Seq<FlatNode>, k: int)
    requires
        all_nodes_wf(ns),
        0 <= k < ns.len(),
    ensures
        encode_nodes(ns) == encode_nodes(ns.take(k)) + encode_node(ns[k]) + encode_nodes(ns.skip(k + 1)),
        encode_nodes(ns.take(k)).len() == node_offset(ns, k),
        encode_node(ns[k]).len() == record_len(ns[k].0),
        node_offset(ns, k + 1) == node_offset(ns, k) + record_len(ns[k].0),
        node_offset(ns, k) % 16 == 0,
        node_offset(ns, k) + record_len(ns[k].0) <= encode_nodes(ns).len(),
{
    assert(ns =~= ns.take(k + 1) + ns.skip(k + 1));
    lemma_encode_concat(ns.take(k + 1), ns.skip(k + 1));
    assert(ns.take(k + 1).drop_last() =~= ns.take(k));
    assert(ns.take(k + 1).last() == ns[k]);
    lemma_encode_len(ns, k);
    assert(node_wf(ns[k]));
    lemma_record_len(ns[k]);
}

pub proof fn lemma_total_len(ns: Seq<FlatNode>)
    requires
        all_nodes_wf(ns),
    ensures
        encode_nodes(ns).len() == node_offset(ns, ns.len() as int),
        encode_nodes(ns).len() % 16 == 0,
{
    lemma_encode_len(ns, ns.len() as int);
    assert(ns.take(ns.len() as int) =~= ns);
}

/// Offsets only depend on payload lengths.
pub proof fn lemma_offset_eq(a: Seq<FlatNode>, b: Seq<FlatNode>, k: int)
    requires
        0 <= k <= a.len(),
        a.len() == b.len(),
        forall|i: int| 0 <= i < a.len() ==> #[trigger] a[i].0.payload_len == b[i].0.payload_len,
    ensures
        node_offset(a, k) == node_offset(b, k),
    decreases k,
{
    if k > 0 {
        lemma_offset_eq(a, b, k - 1);
        assert(a[k - 1].0.payload_len == b[k - 1].0.payload_len);
    }
}

/// Replacing node `k` by one that differs only in its flags changes one byte.
pub proof fn lemma_update_flags(ns: Seq<FlatNode>, k: int, h: FlatASTHeader)
    requires
        all_nodes_wf(ns),
        0 <= k < ns.len(),
        h == (FlatASTHeader { flags: h.flags, ..ns[k].0 }),
    ensures
        encode_nodes(ns.update(k, (h, ns[k].1))) == encode_nodes(ns).update(
            node_offset(ns, k) + 12int,
            h.flags,
        ),
        all_nodes_wf(ns.update(k, (h, ns[k].1))),
{
    let ns2 = ns.update(k, (h, ns[k].1));
    assert(all_nodes_wf(ns2)) by {
        assert forall|i: int| 0 <= i < ns2.len() implies #[trigger] node_wf(ns2[i]) by {
            assert(node_wf(ns[i]));
        }
    }
    lemma_split(ns, k);
    lemma_split(ns2, k);
    assert(ns2.take(k) =~= ns.take(k));
    assert(ns2.skip(k + 1) =~= ns.skip(k + 1));
    assert(encode_node(ns2[k]) =~= encode_node(ns[k]).update(12, h.flags));
    assert(encode_nodes(ns2) =~= encode_nodes(ns).update(node_offset(ns, k) + 12int, h.flags));
}

// ---------------------------------------------------------------------------
// Lemmas on token sums
// ---------------------------------------------------------------------------

pub proof fn lemma_tokens_nonneg(ns: Seq<FlatNode>, p: spec_fn(int) -> bool, m: int)
    ensures
        tokens_where(ns, p, m) >= 0,
    decreases m,
{
    if m > 0 {
        lemma_tokens_nonneg(ns, p, m - 1);
    }
}

pub proof fn lemma_tokens_mono_m(ns: Seq<FlatNode>, p: spec_fn(int) -> bool, m1: int, m2: int)
    requires
        m1 <= m2,
    ensures
        tokens_where(ns, p, m1) <= tokens_where(ns, p, m2),
    decreases m2 - m1,
{
    if m2 > m1 {
        lemma_tokens_mono_m(ns, p, m1, m2 - 1);
    }
}

/// Sums agree when predicates and lengths agree below `m`.
pub proof fn lemma_tokens_ext(
    a: Seq<FlatNode>,
    p: spec_fn(int) -> bool,
    b: Seq<FlatNode>,
    q: spec_fn(int) -> bool,
    m: int,
)
    requires
        m <= a.len(),
        m <= b.len(),
        forall|i: int| 0 <= i < m ==> #[trigger] p(i) == q(i),
        forall|i: int| 0 <= i < m ==> a[i].0.payload_len == b[i].0.payload_len,
    ensures
        tokens_where(a, p, m) == tokens_where(b, q, m),
    decreases m,
{
    if m > 0 {
        lemma_tokens_ext(a, p, b, q, m - 1);
    }
}

/// A smaller predicate gives a smaller sum.
pub proof fn lemma_tokens_subset(ns: Seq<FlatNode>, p: spec_fn(int) -> bool, q: spec_fn(int) -> bool, m: int)
    requires
        forall|i: int| 0 <= i < m && #[trigger] p(i) ==> q(i),
    ensures
        tokens_where(ns, p, m) <= tokens_where(ns, q, m),
    decreases m,
{
    if m > 0 {
        lemma_tokens_subset(ns, p, q, m - 1);
    }
}

/// Adding one index `j` to the predicate adds its length.
pub proof fn lemma_tokens_add(ns: Seq<FlatNode>, p: spec_fn(int) -> bool, q: spec_fn(int) -> bool, j: int, m: int)
    requires
        0 <= j < m <= ns.len(),
        !p(j),
        q(j),
        forall|i: int| 0 <= i < m && i != j ==> #[trigger] p(i) == q(i),
    ensures
        tokens_where(ns, q, m) == tokens_where(ns, p, m) + ns[j].0.payload_len,
    decreases m,
{
    if m - 1 == j {
        lemma_tokens_ext(ns, p, ns, q, m - 1);
    } else {
        lemma_tokens_add(ns, p, q, j, m - 1);
    }
}

/// An index satisfying the predicate contributes at most the whole sum.
pub proof fn lemma_tokens_single(ns: Seq<FlatNode>, p: spec_fn(int) -> bool, j: int, m: int)
    requires
        0 <= j < m,
        p(j),
    ensures
        ns[j].0.payload_len <= tokens_where(ns, p, m),
    decreases m,
{
    lemma_tokens_nonneg(ns, p, m - 1);
    if m - 1 != j {
        lemma_tokens_single(ns, p, j, m - 1);
    }
}

/// Deactivating nodes never adds tokens.
pub proof fn lemma_deactivate_tokens(ns: Seq<FlatNode>, pred: spec_fn(int) -> bool)
    ensures
        active_tokens(deactivate_where(ns, pred)) <= active_tokens(ns),
        deactivate_where(ns, pred).len() == ns.len(),
{
    let d = deactivate_where(ns, pred);
    let pa = |i: int| d[i].0.active();
    let pb = |i: int| ns[i].0.active();
    assert forall|i: int| 0 <= i < ns.len() && #[trigger] pa(i) implies pb(i) by {
        lemma_deactivated_bits(ns[i].0);
    }
    lemma_tokens_subset(d, pa, pb, ns.len() as int);
    lemma_tokens_ext(d, pb, ns, pb, ns.len() as int);
}

/// Little-endian integers read from a byte sequence at `at`.
pub open spec fn u64_at(s: Seq<u8>, at: int) -> u64 {
    (s[at] as u64) | ((s[at + 1] as u64) << 8u64) | ((s[at + 2] as u64) << 16u64) | ((s[at + 3] as u64) << 24u64)
        | ((s[at + 4] as u64) << 32u64) | ((s[at + 5] as u64) << 40u64) | ((s[at + 6] as u64) << 48u64)
        | ((s[at + 7] as u64) << 56u64)
}

pub open spec fn u32_at(s: Seq<u8>, at: int) -> u32 {
    (s[at] as u32) | ((s[at + 1] as u32) << 8u32) | ((s[at + 2] as u32) << 16u32) | ((s[at + 3] as u32) << 24u32)
}

pub open spec fn u16_at(s: Seq<u8>, at: int) -> u16 {
    (s[at] as u16) | ((s[at + 1] as u16) << 8u16)
}

/// A header encoded at `at` decodes back to itself.
pub proof fn lemma_decode_header(s: Seq<u8>, at: int, h: FlatASTHeader)
    requires
        0 <= at,
        at + 16 <= s.len(),
        s.subrange(at, at + 16) == header_bytes(h),
    ensures
        u64_at(s, at) == h.node_id,
        u32_at(s, at + 8) == h.payload_len,
        s[at + 12] == h.flags,
        s[at + 13] == h.priority,
        u16_at(s, at + 14) == h.child_count,
{
    let hb = header_bytes(h);
    assert forall|i: int| 0 <= i < 16 implies s[at + i] == #[trigger] hb[i] by {
        assert(s.subrange(at, at + 16)[i] == s[at + i]);
    }
    assert(s[at] == hb[0] && s[at + 1] == hb[1] && s[at + 2] == hb[2] && s[at + 3] == hb[3]);
    assert(s[at + 4] == hb[4] && s[at + 5] == hb[5] && s[at + 6] == hb[6] && s[at + 7] == hb[7]);
    assert(s[at + 8] == hb[8] && s[at + 9] == hb[9] && s[at + 10] == hb[10] && s[at + 11] == hb[11]);
    assert(s[at + 12] == hb[12] && s[at + 13] == hb[13] && s[at + 14] == hb[14] && s[at + 15] == hb[15]);
    lemma_u64_le(h.node_id, hb[0], hb[1], hb[2], hb[3], hb[4], hb[5], hb[6], hb[7]);
    lemma_u32_le(h.payload_len, hb[8], hb[9], hb[10], hb[11]);
    lemma_u16_le(h.child_count, hb[14], hb[15]);
}

// ---------------------------------------------------------------------------
// The buffer
// ---------------------------------------------------------------------------

/// Nodes packed contiguously into one byte buffer.
pub struct FlatAST {
    data: Vec<u8>,
    nodes: Ghost<Seq<FlatNode>>,
}

impl View for FlatAST {
    type V = Seq<FlatNode>;

    closed spec fn view(&self) -> Seq<FlatNode> {
        self.nodes@
    }
}

impl Clone for FlatAST {
    fn clone(&self) -> (r: Self)
        ensures
            r@ == self@,
            self.wf() ==> r.wf(),
    {
        FlatAST { data: self.data.clone(), nodes: Ghost(self.nodes@) }
    }
}

impl Default for FlatAST {
    fn default() -> (r: Self)
        ensures
            r.wf(),
            r@ == Seq::<FlatNode>::empty(),
    {
        FlatAST::new()
    }
}

impl FlatAST {
    /// The buffer is exactly the encoding of the node sequence.
    pub closed spec fn wf(&self) -> bool {
        &&& self.data@ == encode_nodes(self.nodes@)
        &&& all_nodes_wf(self.nodes@)
    }

    /// The buffer's bytes.
    pub closed spec fn bytes(&self) -> Seq<u8> {
        self.data@
    }

    /// The bytes of a well-formed buffer are the encoding of its nodes.
    pub proof fn lemma_bytes(&self)
        requires
            self.wf(),
        ensures
            self.bytes() == encode_nodes(self@),
            all_nodes_wf(self@),
    {
    }

    /// Every node of a well-formed buffer has a payload length that matches its text.
    pub proof fn lemma_wf_nodes(&self)
        requires
            self.wf(),
        ensures
            all_nodes_wf(self@),
    {
    }

    /// Reads the header of node `k`, which starts at byte `off`.
    #[verifier::rlimit(40)]
    fn read_header(&self, off: usize, Ghost(k): Ghost<int>) -> (h: FlatASTHeader)
        requires
            self.wf(),
            0 <= k < self@.len(),
            off == node_offset(self@, k),
        ensures
            h == self@[k].0,
            off + record_len(h) <= self.data@.len(),
    {
        proof {
            lemma_split(self.nodes@, k);
            let enc = encode_node(self.nodes@[k]);
            assert(self.data@.subrange(off as int, off + 16) =~= enc.subrange(0, 16));
            assert(enc.subrange(0, 16) =~= header_bytes(self.nodes@[k].0));
            lemma_decode_header(self.data@, off as int, self.nodes@[k].0);
        }
        let d = &self.data;
        let node_id = (d[off] as u64) | ((d[off + 1] as u64) << 8) | ((d[off + 2] as u64) << 16)
            | ((d[off + 3] as u64) << 24) | ((d[off + 4] as u64) << 32) | ((d[off + 5] as u64) << 40)
            | ((d[off + 6] as u64) << 48) | ((d[off + 7] as u64) << 56);
        let payload_len = (d[off + 8] as u32) | ((d[off + 9] as u32) << 8) | ((d[off + 10] as u32) << 16)
            | ((d[off + 11] as u32) << 24);
        let flags = d[off + 12];
        let priority = d[off + 13];
        let child_count = (d[off + 14] as u16) | ((d[off + 15] as u16) << 8);
        FlatASTHeader { node_id, payload_len, flags, priority, child_count }
    }

    /// Reads node `k` at byte `off`: its header, its payload text and the offset of the next node.
    #[verifier::rlimit(40)]
    fn node_at(&self, off: usize, Ghost(k): Ghost<int>) -> (r: (FlatASTHeader, &str, usize))
        requires
            self.wf(),
            0 <= k < self@.len(),
            off == node_offset(self@, k),
        ensures
            r.0 == self@[k].0,
            r.1@ == self@[k].1,
            r.2 == node_offset(self@, k + 1),
            r.2 <= self.data@.len(),
    {
        let header = self.read_header(off, Ghost(k));
        let ghost ns = self.nodes@;
        let ghost enc = encode_node(ns[k]);
        let ghost t = encode_utf8(ns[k].1);
        proof {
            lemma_split(ns, k);
            let a = encode_nodes(ns.take(k));
            let c = encode_nodes(ns.skip(k + 1));
            assert(self.data@ == a + enc + c);
            assert(self.data@.subrange(off as int, off + enc.len()) =~= enc);
            assert(enc.subrange(16, 16 + t.len() as int) =~= t);
            assert(node_wf(ns[k]));
            assert(t.len() == header.payload_len);
        }
        let buffer_len = self.data.len();
        assert(off + record_len(header) <= buffer_len);
        let payload_start = off + 16;
        let payload_end = payload_start + header.payload_len as usize;
        let payload_bytes = vstd::slice::slice_subrange(self.data.as_slice(), payload_start, payload_end);
        proof {
            assert(payload_bytes@ =~= self.data@.subrange(off as int, off + enc.len()).subrange(16, 16 + t.len() as int));
            vstd::utf8::encode_utf8_valid_utf8(ns[k].1);
            vstd::utf8::encode_utf8_decode_utf8(ns[k].1);
        }
        let payload = match utf8_str(payload_bytes) {
            Some(s) => s,
            None => "",
        };
        let pad = ((16 - (header.payload_len % 16)) % 16) as usize;
        let next = payload_end + pad;
        (header, payload, next)
    }

    /// An empty buffer.
    pub fn new() -> (r: Self)
        ensures
            r.wf(),
            r@ == Seq::<FlatNode>::empty(),
    {
        FlatAST { data: Vec::new(), nodes: Ghost(Seq::empty()) }
    }

    /// Whether no node has been pushed since creation or the last `clear`.
    pub fn is_empty(&self) -> (r: bool)
        requires
            self.wf(),
        ensures
            r == (self@.len() == 0),
    {
        proof {
            if self.nodes@.len() > 0 {
                lemma_split(self.nodes@, 0);
            }
        }
        self.data.len() == 0
    }

    /// Drops every node, keeping the buffer's allocation for reuse.
    pub fn clear(&mut self)
        ensures
            final(self).wf(),
            final(self)@ == Seq::<FlatNode>::empty(),
    {
        self.data.clear();
        self.nodes = Ghost(Seq::empty());
    }

    /// Appends an active node: the 16-byte header, the UTF-8 payload and zero
    /// padding up to the next multiple of 16 bytes.  Only the low two bits of
    /// `node_type` are kept.
    pub fn push_node(
        &mut self,
        node_id: u64,
        node_type: u8,
        priority: u8,
        is_subnode: bool,
        child_count: u16,
        payload: &str,
    )
        requires
            old(self).wf(),
            encode_utf8(payload@).len() <= u32::MAX,
        ensures
            final(self).wf(),
            final(self)@ == old(self)@.push(
                (
                    FlatASTHeader {
                        node_id,
                        payload_len: encode_utf8(payload@).len() as u32,
                        flags: push_flags(node_type, is_subnode),
                        priority,
                        child_count,
                    },
                    payload@,
                ),
            ),
    {
        let payload_bytes = payload.as_bytes();
        let payload_len = payload_bytes.len() as u32;

        let mut flags: u8 = 0u8;
        flags = flags | 0x01;
        if is_subnode {
            flags = flags | 0x02;
        }
        flags = flags | ((node_type & 0x03) << 2);
        proof {
            let t = node_type;
            if is_subnode {
                assert(((0u8 | 1u8) | 2u8) | ((t & 3u8) << 2u8) == (1u8 | 2u8) | ((t & 3u8) << 2u8)) by (bit_vector);
            } else {
                assert((0u8 | 1u8) | ((t & 3u8) << 2u8) == (1u8 | 0u8) | ((t & 3u8) << 2u8)) by (bit_vector);
            }
        }
        let header = FlatASTHeader { node_id, payload_len, flags, priority, child_count };
        let ghost node: FlatNode = (header, payload@);
        let ghost old_data = self.data@;
        let ghost old_nodes = self.nodes@;
        assert(payload_len as nat == encode_utf8(payload@).len());

        self.data.push(node_id as u8);
        self.data.push((node_id >> 8) as u8);
        self.data.push((node_id >> 16) as u8);
        self.data.push((node_id >> 24) as u8);
        self.data.push((node_id >> 32) as u8);
        self.data.push((node_id >> 40) as u8);
        self.data.push((node_id >> 48) as u8);
        self.data.push((node_id >> 56) as u8);
        self.data.push(payload_len as u8);
        self.data.push((payload_len >> 8) as u8);
        self.data.push((payload_len >> 16) as u8);
        self.data.push((payload_len >> 24) as u8);
        self.data.push(flags);
        self.data.push(priority);
        self.data.push(child_count as u8);
        self.data.push((child_count >> 8) as u8);
        assert(self.data@ =~= old_data + header_bytes(header));

        self.data.extend_from_slice(payload_bytes);
        assert(self.data@ =~= old_data + header_bytes(header) + encode_utf8(payload@));

        let pad = (16 - (payload_len % 16)) % 16;
        let mut i: u32 = 0;
        while i < pad
            invariant
                i <= pad,
                pad as nat == pad_len(payload_len as nat),
                self.data@ =~= old_data + header_bytes(header) + encode_utf8(payload@) + zeros(i as nat),
            decreases pad - i,
        {
            self.data.push(0u8);
            i = i + 1;
            assert(self.data@ =~= old_data + header_bytes(header) + encode_utf8(payload@) + zeros(i as nat));
        }
        proof {
            let ns2 = old_nodes.push(node);
            assert(ns2.drop_last() =~= old_nodes);
            assert(encode_nodes(ns2) == encode_nodes(old_nodes) + encode_node(node));
            assert(self.data@ =~= encode_nodes(ns2));
            assert(all_nodes_wf(ns2)) by {
                assert forall|k: int| 0 <= k < ns2.len() implies #[trigger] node_wf(ns2[k]) by {
                    if k < old_nodes.len() {
                        assert(node_wf(old_nodes[k]));
                    }
                }
            }
        }
        self.nodes = Ghost(old_nodes.push(node));
    }

    /// Every node in order: header, payload text and byte offset of the node.
    pub fn iter_nodes(&self) -> (r: Vec<(FlatASTHeader, String, usize)>)
        requires
            self.wf(),
        ensures
            r.len() == self@.len(),
            forall|k: int|
                0 <= k < self@.len() ==> {
                    &&& (#[trigger] r[k]).0 == self@[k].0
                    &&& r[k].1@ == self@[k].1
                    &&& r[k].2 == node_offset(self@, k)
                },
    {
        let mut out: Vec<(FlatASTHeader, String, usize)> = Vec::new();
        let mut offset: usize = 0;
        let ghost mut k: int = 0;
        proof {
            lemma_total_len(self.nodes@);
        }
        while offset < self.data.len()
            invariant
                self.wf(),
                0 <= k <= self@.len(),
                offset == node_offset(self@, k),
                out.len() == k,
                encode_nodes(self@).len() == node_offset(self@, self@.len() as int),
                forall|j: int|
                    0 <= j < k ==> {
                        &&& (#[trigger] out[j]).0 == self@[j].0
                        &&& out[j].1@ == self@[j].1
                        &&& out[j].2 == node_offset(self@, j)
                    },
            decreases self.data@.len() - offset,
        {
            proof {
                if k == self@.len() {
                    assert(false);
                }
                lemma_split(self.nodes@, k);
            }
            let (header, payload, next) = self.node_at(offset, Ghost(k));
            out.push((header, payload.to_owned(), offset));
            offset = next;
            proof {
                k = k + 1;
            }
        }
        proof {
            if k < self@.len() {
                lemma_split(self.nodes@, k);
            }
        }
        out
    }

    /// Sum of the payload lengths of the active nodes (the token estimate).
    pub fn total_tokens(&self) -> (r: u32)
        requires
            self.wf(),
            active_tokens(self@) <= u32::MAX,
        ensures
            r == active_tokens(self@),
    {
        let mut total: u32 = 0;
        let mut offset: usize = 0;
        let ghost mut k: int = 0;
        let ghost ns = self.nodes@;
        let ghost p = |i: int| ns[i].0.active();
        proof {
            lemma_total_len(self.nodes@);
        }
        while offset < self.data.len()
            invariant
                self.wf(),
                ns == self@,
                p == (|i: int| ns[i].0.active()),
                active_tokens(ns) <= u32::MAX,
                0 <= k <= ns.len(),
                offset == node_offset(ns, k),
                encode_nodes(ns).len() == node_offset(ns, ns.len() as int),
                total == tokens_where(ns, p, k),
            decreases self.data@.len() - offset,
        {
            proof {
                if k == ns.len() {
                    assert(false);
                }
                lemma_split(self.nodes@, k);
                lemma_tokens_mono_m(ns, p, k + 1, ns.len() as int);
            }
            let header = self.read_header(offset, Ghost(k));
            if header.is_active() {
                total = total + header.payload_len;
            }
            offset = next_offset(offset, header.payload_len);
            proof {
                k = k + 1;
            }
        }
        proof {
            if k < ns.len() {
                lemma_split(self.nodes@, k);
            }
        }
        total
    }
}

/// A first-stage pruning candidate: where its header is, its priority and its tokens.
struct PruneCandidate {
    offset: usize,
    priority: u8,
    token_count: u32,
}

impl FlatAST {
    /// Clears the Active bit of node `k`, whose record starts at `off`.
    fn clear_active_at(&mut self, off: usize, Ghost(k): Ghost<int>)
        requires
            old(self).wf(),
            0 <= k < old(self)@.len(),
            off == node_offset(old(self)@, k),
        ensures
            final(self).wf(),
            final(self)@ == old(self)@.update(k, (old(self)@[k].0.deactivated(), old(self)@[k].1)),
            final(self).data@.len() == old(self).data@.len(),
    {
        let ghost ns = self.nodes@;
        proof {
            lemma_split(ns, k);
            let enc = encode_node(ns[k]);
            assert(self.data@.subrange(off as int, off + 16) =~= enc.subrange(0, 16));
            assert(enc.subrange(0, 16) =~= header_bytes(ns[k].0));
            lemma_decode_header(self.data@, off as int, ns[k].0);
            lemma_update_flags(ns, k, ns[k].0.deactivated());
        }
        let flags = self.data[off + 12];
        self.data.set(off + 12, flags & 0xfe);
        self.nodes = Ghost(ns.update(k, (ns[k].0.deactivated(), ns[k].1)));
    }

    /// Finds the first node (sub-nodes included) with id `target_id` and clears
    /// its Active bit in place; returns whether such a node exists.
    pub fn logical_delete_node(&mut self, target_id: u64) -> (found: bool)
        requires
            old(self).wf(),
        ensures
            final(self).wf(),
            found == exists|k: int| 0 <= k < old(self)@.len() && old(self)@[k].0.node_id == target_id,
            found ==> exists|k: int|
                first_with_id(old(self)@, target_id, k) && final(self)@ == old(self)@.update(
                    k,
                    (old(self)@[k].0.deactivated(), old(self)@[k].1),
                ),
            !found ==> final(self)@ == old(self)@,
            final(self)@ == deleted(old(self)@, target_id),
    {
        let mut cursor: usize = 0;
        let buffer_len = self.data.len();
        let ghost mut k: int = 0;
        let ghost ns = self.nodes@;
        proof {
            lemma_total_len(ns);
        }
        while cursor < buffer_len
            invariant
                self.wf(),
                self@ == ns,
                ns == old(self)@,
                buffer_len == self.data@.len(),
                0 <= k <= ns.len(),
                cursor == node_offset(ns, k),
                encode_nodes(ns).len() == node_offset(ns, ns.len() as int),
                forall|j: int| 0 <= j < k ==> ns[j].0.node_id != target_id,
            decreases buffer_len - cursor,
        {
            proof {
                if k == ns.len() {
                    assert(false);
                }
            }
            let header = self.read_header(cursor, Ghost(k));
            if header.node_id == target_id {
                self.clear_active_at(cursor, Ghost(k));
                assert(first_with_id(ns, target_id, k));
                assert(ns[k].0.node_id == target_id);
                proof {
                    let c = choose|c: int| first_with_id(ns, target_id, c);
                    lemma_first_with_id_unique(ns, target_id, k, c);
                }
                return true;
            }
            cursor = next_offset(cursor, header.payload_len);
            proof {
                lemma_split(ns, k);
                k = k + 1;
            }
        }
        proof {
            if k < ns.len() {
                lemma_split(ns, k);
            }
            assert(!exists|c: int| first_with_id(ns, target_id, c));
        }
        false
    }

    /// Clears the Active bit of every sub-node whose priority byte equals the tier.
    fn deactivate_subnodes_by_tier(&mut self, tier: PriorityTier)
        requires
            old(self).wf(),
        ensures
            final(self).wf(),
            final(self)@ == deactivate_tier(old(self)@, tier.spec_value()),
    {
        let ghost ns = self.nodes@;
        let t = tier.value();
        let mut cursor: usize = 0;
        let buffer_len = self.data.len();
        let ghost mut k: int = 0;
        proof {
            lemma_total_len(ns);
        }
        while cursor < buffer_len
            invariant
                self.wf(),
                buffer_len == self.data@.len(),
                t == tier.spec_value(),
                ns == old(self)@,
                all_nodes_wf(ns),
                0 <= k <= ns.len(),
                self@.len() == ns.len(),
                cursor == node_offset(ns, k),
                buffer_len == node_offset(ns, ns.len() as int),
                forall|j: int|
                    0 <= j < ns.len() ==> #[trigger] self@[j] == if j < k && ns[j].0.sub()
                        && ns[j].0.priority == t {
                        (ns[j].0.deactivated(), ns[j].1)
                    } else {
                        ns[j]
                    },
            decreases buffer_len - cursor,
        {
            proof {
                if k == ns.len() {
                    assert(false);
                }
                lemma_split(ns, k);
                assert forall|i: int| 0 <= i < ns.len() implies #[trigger] self@[i].0.payload_len
                    == ns[i].0.payload_len by {
                    lemma_deactivated_bits(ns[i].0);
                }
                lemma_offset_eq(self@, ns, k);
                lemma_offset_eq(self@, ns, k + 1);
                assert(self@[k] == ns[k]);
            }
            let header = self.read_header(cursor, Ghost(k));
            let is_subnode = header.is_subnode();
            let priority = header.priority;
            if is_subnode && priority == t {
                self.clear_active_at(cursor, Ghost(k));
            }
            cursor = next_offset(cursor, header.payload_len);
            proof {
                k = k + 1;
            }
        }
        proof {
            if k < ns.len() {
                lemma_split(ns, k);
            }
            assert(self@ =~= deactivate_tier(ns, t));
        }
    }
}

impl FlatAST {
    /// Deactivates nodes until the active token count is at most
    /// `target_token_limit`, and returns the final count.
    ///
    /// First stage: candidates (active, not System/Instruction, priority > 0,
    /// not a sub-node) are deactivated in eviction order (larger priority value
    /// first, later position first) while the count exceeds the limit.
    /// Second stage, only if the count still exceeds the limit: every Tier3
    /// sub-node is deactivated, then, if still needed, every Tier2 sub-node.
    /// When even that is not enough the larger count is returned (the budget
    /// is expanded to what the protected nodes need).
    pub fn prune(&mut self, target_token_limit: u32) -> (r: u32)
        requires
            old(self).wf(),
            active_tokens(old(self)@) <= u32::MAX,
        ensures
            final(self).wf(),
            final(self)@ == pruned(old(self)@, target_token_limit),
            r == active_tokens(final(self)@),
    {
        let ghost ns0 = self.nodes@;
        let ghost n = ns0.len() as int;
        let limit = target_token_limit;
        let mut current_tokens = self.total_tokens();
        let ghost tok0 = active_tokens(ns0);
        if current_tokens <= limit {
            proof {
                assert forall|j: int| 0 <= j < n implies !first_stage_evicts(ns0, limit, j) by {
                    lemma_tokens_nonneg(ns0, |i: int| is_candidate(ns0[i].0) && evicted_before(ns0, i, j), n);
                }
                assert(after_first_stage(ns0, limit) =~= ns0);
            }
            return current_tokens;
        }
        let candidates = self.collect_candidates();
        let ghost cidx = candidates.1@;
        let candidates = candidates.0;
        let ghost mut ev: Seq<bool> = Seq::new(n as nat, |j: int| false);
        proof {
            assert(self@ =~= deactivate_where(ns0, |j: int| ev[j]));
            lemma_tokens_ext(ns0, |i: int| ev[i], ns0, |i: int| false, n);
            lemma_tokens_zero(ns0, n);
        }
        let mut p: u16 = 255;
        let mut c: usize = candidates.len();
        while p > 0 && current_tokens > limit
            invariant
                self.wf(),
                ns0.len() == n,
                all_nodes_wf(ns0),
                tok0 == active_tokens(ns0),
                candidates.len() == cidx.len(),
                candidate_list(ns0, candidates@, cidx),
                p <= 255,
                c <= candidates.len(),
                ev.len() == n,
                self@ == deactivate_where(ns0, |j: int| ev[j]),
                current_tokens == active_tokens(self@),
                current_tokens == tok0 - tokens_where(ns0, |i: int| ev[i], n),
                forall|j: int| 0 <= j < n && #[trigger] ev[j] ==> processed(ns0, cidx, p as int, c as int, j),
                forall|j: int|
                    0 <= j < n && #[trigger] processed(ns0, cidx, p as int, c as int, j) ==> ev[j]
                        == first_stage_evicts(ns0, limit, j),
                current_tokens > limit ==> forall|j: int|
                    0 <= j < n && #[trigger] processed(ns0, cidx, p as int, c as int, j) ==> ev[j],
            decreases p, c,
        {
            if c == 0 {
                proof {
                    assert forall|i: int| 0 <= i < n implies processed(ns0, cidx, p as int, 0, i)
                        == #[trigger] processed(ns0, cidx, p - 1, cidx.len() as int, i) by {
                        lemma_candidate_at_least_first(ns0, candidates@, cidx, p as int, i);
                    }
                }
                p = p - 1;
                c = candidates.len();
            } else {
                c = c - 1;
                let ghost j = cidx[c as int];
                if candidates[c].priority as u16 == p {
                    let ghost evp = |i: int| ev[i];
                    let ghost ahead = |i: int| is_candidate(ns0[i].0) && evicted_before(ns0, i, j);
                    proof {
                        assert forall|i: int| 0 <= i < n implies #[trigger] evp(i) == ahead(i) by {
                            lemma_processed_is_ahead(ns0, candidates@, cidx, p as int, c as int, i);
                        }
                        lemma_tokens_ext(ns0, evp, ns0, ahead, n);
                        assert(first_stage_evicts(ns0, limit, j));
                        assert(!ev[j]) by {
                            lemma_processed_is_ahead(ns0, candidates@, cidx, p as int, c as int, j);
                        }
                        assert forall|i: int| 0 <= i < n implies #[trigger] self@[i].0.payload_len
                            == ns0[i].0.payload_len by {
                            lemma_deactivated_bits(ns0[i].0);
                        }
                        lemma_offset_eq(self@, ns0, j);
                        assert(self@[j] == ns0[j]);
                        lemma_tokens_single(self@, |i: int| self@[i].0.active(), j, n);
                    }
                    let ghost before = self@;
                    self.clear_active_at(candidates[c].offset, Ghost(j));
                    proof {
                        let ev2 = ev.update(j, true);
                        lemma_deactivated_bits(ns0[j].0);
                        assert(self@ =~= deactivate_where(ns0, |i: int| ev2[i]));
                        lemma_tokens_add(ns0, |i: int| ev[i], |i: int| ev2[i], j, n);
                        assert forall|i: int| 0 <= i < n && i != j implies #[trigger] self@[i].0.active()
                            == before[i].0.active() by {}
                        lemma_tokens_add(before, |i: int| self@[i].0.active(), |i: int| before[i].0.active(), j, n);
                        lemma_tokens_ext(before, |i: int| self@[i].0.active(), self@, |i: int| self@[i].0.active(), n);
                        assert forall|i: int| 0 <= i < n implies #[trigger] processed(ns0, cidx, p as int, c as int, i)
                            == (processed(ns0, cidx, p as int, c + 1, i) || i == j) by {
                            lemma_processed_step(ns0, candidates@, cidx, p as int, c as int, i);
                        }
                        ev = ev2;
                    }
                    current_tokens = current_tokens - candidates[c].token_count;
                } else {
                    proof {
                        assert forall|i: int| 0 <= i < n implies #[trigger] processed(ns0, cidx, p as int, c as int, i)
                            == processed(ns0, cidx, p as int, c + 1, i) by {
                            lemma_processed_step(ns0, candidates@, cidx, p as int, c as int, i);
                        }
                    }
                }
            }
        }
        proof {
            assert forall|j: int| 0 <= j < n implies #[trigger] ev[j] == first_stage_evicts(ns0, limit, j) by {
                if !processed(ns0, cidx, p as int, c as int, j) {
                    if is_candidate(ns0[j].0) {
                        let evp = |i: int| ev[i];
                        let ahead = |i: int| is_candidate(ns0[i].0) && evicted_before(ns0, i, j);
                        assert forall|i: int| 0 <= i < n && #[trigger] evp(i) implies ahead(i) by {
                            lemma_processed_before_unprocessed(ns0, cidx, p as int, c as int, i, j);
                        }
                        lemma_tokens_subset(ns0, evp, ahead, n);
                    }
                }
            }
            assert(self@ =~= after_first_stage(ns0, limit));
        }
        let ghost s1 = self@;
        proof {
            lemma_deactivate_tokens(ns0, |j: int| first_stage_evicts(ns0, limit, j));
        }
        current_tokens = self.total_tokens();
        if current_tokens > limit {
            self.deactivate_subnodes_by_tier(PriorityTier::Tier3);
            proof {
                lemma_deactivate_tokens(s1, |j: int| s1[j].0.sub() && s1[j].0.priority == 3);
            }
            let ghost s2 = self@;
            current_tokens = self.total_tokens();
            if current_tokens > limit {
                self.deactivate_subnodes_by_tier(PriorityTier::Tier2);
                proof {
                    lemma_deactivate_tokens(s2, |j: int| s2[j].0.sub() && s2[j].0.priority == 2);
                }
                current_tokens = self.total_tokens();
            }
        }
        current_tokens
    }

    /// The first-stage candidates in buffer order, with their node indices.
    fn collect_candidates(&self) -> (r: (Vec<PruneCandidate>, Ghost<Seq<int>>))
        requires
            self.wf(),
        ensures
            r.0.len() == r.1@.len(),
            candidate_list(self@, r.0@, r.1@),
    {
        let mut candidates: Vec<PruneCandidate> = Vec::new();
        let ghost mut cidx: Seq<int> = Seq::empty();
        let ghost ns = self.nodes@;
        let mut offset: usize = 0;
        let buffer_len = self.data.len();
        let ghost mut k: int = 0;
        proof {
            lemma_total_len(ns);
        }
        while offset < buffer_len
            invariant
                self.wf(),
                ns == self@,
                buffer_len == self.data@.len(),
                0 <= k <= ns.len(),
                offset == node_offset(ns, k),
                encode_nodes(ns).len() == node_offset(ns, ns.len() as int),
                candidates.len() == cidx.len(),
                forall|a: int| 0 <= a < cidx.len() ==> 0 <= #[trigger] cidx[a] < k,
                candidate_list_upto(ns, candidates@, cidx, k),
            decreases buffer_len - offset,
        {
            proof {
                if k == ns.len() {
                    assert(false);
                }
                lemma_split(ns, k);
            }
            let header = self.read_header(offset, Ghost(k));
            let is_active = header.is_active();
            let node_type = header.node_type();
            let is_subnode = header.is_subnode();
            let is_critical = node_type == 0 || node_type == 1 || header.priority == 0 || is_subnode;
            if is_active && !is_critical {
                candidates.push(PruneCandidate { offset, priority: header.priority, token_count: header.payload_len });
                proof {
                    let old_cidx = cidx;
                    cidx = cidx.push(k);
                    assert forall|j: int| 0 <= j < k && #[trigger] is_candidate(ns[j].0) implies cidx.contains(j) by {
                        let a = lemma_index_of(old_cidx, j);
                        assert(cidx[a] == j);
                    }
                    assert(cidx[cidx.len() - 1] == k);
                }
            }
            offset = next_offset(offset, header.payload_len);
            proof {
                k = k + 1;
            }
        }
        proof {
            if k < ns.len() {
                lemma_split(ns, k);
            }
        }
        (candidates, Ghost(cidx))
    }
}

/// `cands` lists, in increasing node order, exactly the candidates among the first `k` nodes.
spec fn candidate_list_upto(ns: Seq<FlatNode>, cands: Seq<PruneCandidate>, cidx: Seq<int>, k: int) -> bool {
    &&& cands.len() == cidx.len()
    &&& forall|a: int, b: int| 0 <= a < b < cidx.len() ==> #[trigger] cidx[a] < #[trigger] cidx[b]
    &&& forall|a: int|
        0 <= a < cidx.len() ==> {
            &&& 0 <= #[trigger] cidx[a] < ns.len()
            &&& is_candidate(ns[cidx[a]].0)
            &&& cands[a].offset == node_offset(ns, cidx[a])
            &&& cands[a].priority == ns[cidx[a]].0.priority
            &&& cands[a].token_count == ns[cidx[a]].0.payload_len
        }
    &&& forall|j: int| 0 <= j < k && #[trigger] is_candidate(ns[j].0) ==> cidx.contains(j)
}

spec fn candidate_list(ns: Seq<FlatNode>, cands: Seq<PruneCandidate>, cidx: Seq<int>) -> bool {
    candidate_list_upto(ns, cands, cidx, ns.len() as int)
}

/// Node `i` has been visited by the first stage when it is at list position
/// `c` or later with priority `p`, or has a larger priority.
spec fn processed(ns: Seq<FlatNode>, cidx: Seq<int>, p: int, c: int, i: int) -> bool {
    &&& is_candidate(ns[i].0)
    &&& (ns[i].0.priority > p || (ns[i].0.priority == p && (if c < cidx.len() {
        cidx[c]
    } else {
        ns.len() as int
    }) <= i))
}

proof fn lemma_tokens_zero(ns: Seq<FlatNode>, m: int)
    ensures
        tokens_where(ns, |i: int| false, m) == 0,
    decreases m,
{
    if m > 0 {
        lemma_tokens_zero(ns, m - 1);
    }
}

proof fn lemma_index_of(cidx: Seq<int>, j: int) -> (a: int)
    requires
        cidx.contains(j),
    ensures
        0 <= a < cidx.len(),
        cidx[a] == j,
{
    choose|a: int| 0 <= a < cidx.len() && cidx[a] == j
}

proof fn lemma_cidx_order(ns: Seq<FlatNode>, cands: Seq<PruneCandidate>, cidx: Seq<int>, x: int, y: int)
    requires
        candidate_list(ns, cands, cidx),
        0 <= x < cidx.len(),
        0 <= y < cidx.len(),
    ensures
        (cidx[x] <= cidx[y]) == (x <= y),
        (cidx[x] < cidx[y]) == (x < y),
{
    if x < y {
        assert(cidx[x] < cidx[y]);
    } else if y < x {
        assert(cidx[y] < cidx[x]);
    }
}

/// Moving from list position 0 at priority `p` to the end of the list at `p - 1`
/// does not change which nodes are processed.
proof fn lemma_candidate_at_least_first(
    ns: Seq<FlatNode>,
    cands: Seq<PruneCandidate>,
    cidx: Seq<int>,
    p: int,
    i: int,
)
    requires
        candidate_list(ns, cands, cidx),
        0 <= i < ns.len(),
    ensures
        processed(ns, cidx, p, 0, i) == processed(ns, cidx, p - 1, cidx.len() as int, i),
{
    if is_candidate(ns[i].0) {
        let a = lemma_index_of(cidx, i);
        lemma_cidx_order(ns, cands, cidx, 0, a);
    }
}

/// Stepping the list position from `c + 1` down to `c` adds exactly node `cidx[c]`
/// when its priority is `p`.
proof fn lemma_processed_step(
    ns: Seq<FlatNode>,
    cands: Seq<PruneCandidate>,
    cidx: Seq<int>,
    p: int,
    c: int,
    i: int,
)
    requires
        candidate_list(ns, cands, cidx),
        0 <= c < cidx.len(),
        0 <= i < ns.len(),
    ensures
        processed(ns, cidx, p, c, i) == (processed(ns, cidx, p, c + 1, i) || (i == cidx[c]
            && ns[cidx[c]].0.priority == p)),
{
    if is_candidate(ns[i].0) {
        let a = lemma_index_of(cidx, i);
        lemma_cidx_order(ns, cands, cidx, c, a);
        if c + 1 < cidx.len() {
            lemma_cidx_order(ns, cands, cidx, c + 1, a);
        }
    }
}

/// Before the candidate at position `c` (priority `p`) is visited, the processed
/// nodes are exactly the candidates ahead of it in the eviction order.
proof fn lemma_processed_is_ahead(
    ns: Seq<FlatNode>,
    cands: Seq<PruneCandidate>,
    cidx: Seq<int>,
    p: int,
    c: int,
    i: int,
)
    requires
        candidate_list(ns, cands, cidx),
        0 <= c < cidx.len(),
        ns[cidx[c]].0.priority == p,
        0 <= i < ns.len(),
    ensures
        processed(ns, cidx, p, c + 1, i) == (is_candidate(ns[i].0) && evicted_before(ns, i, cidx[c])),
{
    if is_candidate(ns[i].0) {
        let a = lemma_index_of(cidx, i);
        lemma_cidx_order(ns, cands, cidx, c, a);
        if c + 1 < cidx.len() {
            lemma_cidx_order(ns, cands, cidx, c + 1, a);
        }
    }
}

/// A processed node comes before any unprocessed candidate in the eviction order.
proof fn lemma_processed_before_unprocessed(
    ns: Seq<FlatNode>,
    cidx: Seq<int>,
    p: int,
    c: int,
    i: int,
    j: int,
)
    requires
        0 <= i < ns.len(),
        0 <= j < ns.len(),
        processed(ns, cidx, p, c, i),
        is_candidate(ns[j].0),
        !processed(ns, cidx, p, c, j),
    ensures
        is_candidate(ns[i].0) && evicted_before(ns, i, j),
{
}

impl FlatAST {
    /// The active nodes rendered as the compact prompt DSL, one line per node:
    /// `#S: ` System, `#I: ` Instruction, `#R[id,priority]: ` Reference,
    /// `#H[id]: ` History, and `  └─ #Sub[id]: ` for sub-nodes.
    #[verifier::rlimit(40)]
    pub fn render_dsl(&self) -> (r: String)
        requires
            self.wf(),
        ensures
            r@ == render_active(self@, |n: FlatNode| dsl_line(n)),
    {
        let mut result = String::new();
        let ghost ns = self.nodes@;
        let ghost line = |n: FlatNode| dsl_line(n);
        let mut offset: usize = 0;
        let buffer_len = self.data.len();
        let ghost mut k: int = 0;
        proof {
            lemma_total_len(ns);
            assert(ns.take(0) =~= Seq::<FlatNode>::empty());
        }
        while offset < buffer_len
            invariant
                self.wf(),
                ns == self@,
                line == (|n: FlatNode| dsl_line(n)),
                buffer_len == self.data@.len(),
                0 <= k <= ns.len(),
                offset == node_offset(ns, k),
                encode_nodes(ns).len() == node_offset(ns, ns.len() as int),
                result@ == render_active(ns.take(k), line),
            decreases buffer_len - offset,
        {
            proof {
                if k == ns.len() {
                    assert(false);
                }
                lemma_split(ns, k);
            }
            let ghost before = result@;
            let (header, payload, next) = self.node_at(offset, Ghost(k));
            if header.is_active() {
                if header.is_subnode() {
                    result.push_str("  └─ #Sub[");
                    push_decimal(&mut result, header.node_id);
                    result.push_str("]: ");
                    result.push_str(payload);
                    result.push_str("\n");
                } else {
                    let node_type = header.node_type();
                    if node_type == 0 {
                        result.push_str("#S: ");
                        result.push_str(payload);
                        result.push_str("\n");
                    } else if node_type == 1 {
                        result.push_str("#I: ");
                        result.push_str(payload);
                        result.push_str("\n");
                    } else if node_type == 2 {
                        result.push_str("#R[");
                        push_decimal(&mut result, header.node_id);
                        result.push_str(",");
                        push_decimal(&mut result, header.priority as u64);
                        result.push_str("]: ");
                        result.push_str(payload);
                        result.push_str("\n");
                    } else if node_type == 3 {
                        result.push_str("#H[");
                        push_decimal(&mut result, header.node_id);
                        result.push_str("]: ");
                        result.push_str(payload);
                        result.push_str("\n");
                    } else {
                        result.push_str("#?: ");
                        result.push_str(payload);
                        result.push_str("\n");
                    }
                }
                assert(result@ =~= before + dsl_line(ns[k]));
            }
            offset = next;
            proof {
                assert(ns.take(k + 1).drop_last() =~= ns.take(k));
                k = k + 1;
            }
        }
        proof {
            if k < ns.len() {
                lemma_split(ns, k);
            }
            assert(ns.take(k) =~= ns);
        }
        result
    }

    /// The active nodes rendered as a human-readable document with one titled
    /// section per node; ids are shown as 16 lowercase hexadecimal digits.
    pub fn render_human_readable(&self) -> (r: String)
        requires
            self.wf(),
        ensures
            r@ == human_title() + render_active(self@, |n: FlatNode| human_section(n)),
    {
        let mut result = String::new();
        result.push_str("=== FLAT-AST HUMAN-READABLE CONTEXT DOCUMENT ===\n\n");
        let ghost ns = self.nodes@;
        let ghost line = |n: FlatNode| human_section(n);
        let mut offset: usize = 0;
        let buffer_len = self.data.len();
        let ghost mut k: int = 0;
        proof {
            lemma_total_len(ns);
            assert(ns.take(0) =~= Seq::<FlatNode>::empty());
        }
        while offset < buffer_len
            invariant
                self.wf(),
                ns == self@,
                line == (|n: FlatNode| human_section(n)),
                buffer_len == self.data@.len(),
                0 <= k <= ns.len(),
                offset == node_offset(ns, k),
                encode_nodes(ns).len() == node_offset(ns, ns.len() as int),
                result@ == human_title() + render_active(ns.take(k), line),
            decreases buffer_len - offset,
        {
            proof {
                if k == ns.len() {
                    assert(false);
                }
                lemma_split(ns, k);
            }
            let ghost before = result@;
            let (header, payload, next) = self.node_at(offset, Ghost(k));
            if header.is_active() {
                if header.is_subnode() {
                    result.push_str("  └─ ■ SUB-NODE [ID: ");
                    push_hex_fixed(&mut result, header.node_id, 16);
                    result.push_str("]: ");
                    result.push_str(payload);
                    result.push_str("\n\n");
                } else {
                    let node_type = header.node_type();
                    if node_type == 0 {
                        result.push_str("■ SYSTEM CONSTRAINT (システム制約)\n");
                        result.push_str(payload);
                        result.push_str("\n\n");
                    } else if node_type == 1 {
                        result.push_str("■ ACTIVE GOAL (実行目標)\n");
                        result.push_str(payload);
                        result.push_str("\n\n");
                    } else if node_type == 2 {
                        result.push_str("■ REFERENCE KNOWLEDGE [ID: ");
                        push_hex_fixed(&mut result, header.node_id, 16);
                        result.push_str(", Priority: ");
                        push_decimal(&mut result, header.priority as u64);
                        result.push_str("] (参照知識)\n");
                        result.push_str(payload);
                        result.push_str("\n\n");
                    } else if node_type == 3 {
                        result.push_str("■ CONVERSATION HISTORY [ID: ");
                        push_hex_fixed(&mut result, header.node_id, 16);
                        result.push_str("] (対話履歴)\n");
                        result.push_str(payload);
                        result.push_str("\n\n");
                    } else {
                        result.push_str("■ UNKNOWN NODE [Type: ");
                        push_decimal(&mut result, node_type as u64);
                        result.push_str("]\n");
                        result.push_str(payload);
                        result.push_str("\n\n");
                    }
                }
                assert(result@ =~= before + human_section(ns[k]));
            }
            offset = next;
            proof {
                assert(ns.take(k + 1).drop_last() =~= ns.take(k));
                k = k + 1;
            }
        }
        proof {
            if k < ns.len() {
                lemma_split(ns, k);
            }
            assert(ns.take(k) =~= ns);
        }
        result
    }
}

// ---------------------------------------------------------------------------
// Laws of pruning
// ---------------------------------------------------------------------------

proof fn lemma_deactivated_inactive(h: FlatASTHeader)
    requires
        !h.active(),
    ensures
        h.deactivated() == h,
{
    let f = h.flags;
    assert((f & 1u8 == 0u8) ==> (f & 0xfeu8 == f)) by (bit_vector);
}

/// Splitting the active tokens into the part that is deactivated and the rest.
proof fn lemma_tokens_split(ns: Seq<FlatNode>, e: spec_fn(int) -> bool, m: int)
    requires
        0 <= m <= ns.len(),
        forall|i: int| 0 <= i < m && #[trigger] e(i) ==> ns[i].0.active(),
    ensures
        tokens_where(deactivate_where(ns, e), |i: int| deactivate_where(ns, e)[i].0.active(), m)
            + tokens_where(ns, e, m) == tokens_where(ns, |i: int| ns[i].0.active(), m),
    decreases m,
{
    if m > 0 {
        lemma_tokens_split(ns, e, m - 1);
        lemma_deactivated_bits(ns[m - 1].0);
    }
}

/// An unevicted candidate has a first unevicted candidate at or before it in
/// the eviction order; every candidate ahead of that one is evicted.
proof fn lemma_first_unevicted(ns: Seq<FlatNode>, limit: u32, j: int) -> (m: int)
    requires
        0 <= j < ns.len(),
        is_candidate(ns[j].0),
        !first_stage_evicts(ns, limit, j),
    ensures
        0 <= m < ns.len(),
        is_candidate(ns[m].0),
        !first_stage_evicts(ns, limit, m),
        forall|i: int|
            0 <= i < ns.len() && is_candidate(ns[i].0) && #[trigger] evicted_before(ns, i, m)
                ==> first_stage_evicts(ns, limit, i),
    decreases 255 - ns[j].0.priority, ns.len() - j,
{
    if exists|i: int|
        0 <= i < ns.len() && is_candidate(ns[i].0) && #[trigger] evicted_before(ns, i, j)
            && !first_stage_evicts(ns, limit, i) {
        let i = choose|i: int|
            0 <= i < ns.len() && is_candidate(ns[i].0) && #[trigger] evicted_before(ns, i, j)
                && !first_stage_evicts(ns, limit, i);
        let m = lemma_first_unevicted(ns, limit, i);
        assert forall|x: int|
            0 <= x < ns.len() && is_candidate(ns[x].0) && #[trigger] evicted_before(ns, x, m)
                implies first_stage_evicts(ns, limit, x) by {}
        m
    } else {
        j
    }
}

/// After the first stage, either the count is within the limit or every candidate was evicted.
proof fn lemma_first_stage_exhausts(ns: Seq<FlatNode>, limit: u32)
    ensures
        active_tokens(after_first_stage(ns, limit)) > limit ==> forall|j: int|
            0 <= j < ns.len() && #[trigger] is_candidate(ns[j].0) ==> first_stage_evicts(ns, limit, j),
{
    let n = ns.len() as int;
    let e = |j: int| first_stage_evicts(ns, limit, j);
    let s1 = after_first_stage(ns, limit);
    if active_tokens(s1) > limit {
        assert forall|j: int| 0 <= j < n && #[trigger] is_candidate(ns[j].0) implies first_stage_evicts(
            ns,
            limit,
            j,
        ) by {
            if !first_stage_evicts(ns, limit, j) {
                let m = lemma_first_unevicted(ns, limit, j);
                let ahead = |i: int| is_candidate(ns[i].0) && evicted_before(ns, i, m);
                assert forall|i: int| 0 <= i < n && #[trigger] ahead(i) implies e(i) by {}
                lemma_tokens_subset(ns, ahead, e, n);
                lemma_tokens_split(ns, e, n);
                assert(false);
            }
        }
    }
}

/// Pruning only clears Active bits: the node count, the payloads and every other
/// header field stay as they were.
pub proof fn lemma_prune_only_deactivates(ns: Seq<FlatNode>, limit: u32)
    ensures
        pruned(ns, limit).len() == ns.len(),
        forall|k: int|
            0 <= k < ns.len() ==> (#[trigger] pruned(ns, limit)[k]).1 == ns[k].1 && (pruned(ns, limit)[k].0
                == ns[k].0 || pruned(ns, limit)[k].0 == ns[k].0.deactivated()),
{
    let s1 = after_first_stage(ns, limit);
    let s2 = deactivate_tier(s1, 3);
    let s3 = deactivate_tier(s2, 2);
    assert forall|k: int| 0 <= k < ns.len() implies (#[trigger] pruned(ns, limit)[k]).1 == ns[k].1 && (pruned(
        ns,
        limit,
    )[k].0 == ns[k].0 || pruned(ns, limit)[k].0 == ns[k].0.deactivated()) by {
        lemma_deactivated_bits(ns[k].0);
        lemma_deactivated_bits(s1[k].0);
        lemma_deactivated_bits(s2[k].0);
    }
}

/// Protected nodes are never deactivated by pruning: System and Instruction
/// nodes, priority-0 nodes (all not sub-nodes), and sub-nodes whose tier is
/// neither 2 nor 3 (Tier1 in particular).
pub proof fn lemma_prune_protects(ns: Seq<FlatNode>, limit: u32)
    ensures
        forall|k: int|
            0 <= k < ns.len() && ((!ns[k].0.sub() && (ns[k].0.kind() == 0 || ns[k].0.kind() == 1
                || ns[k].0.priority == 0)) || (ns[k].0.sub() && ns[k].0.priority != 2
                && ns[k].0.priority != 3)) ==> #[trigger] pruned(ns, limit)[k] == ns[k],
{
    let s1 = after_first_stage(ns, limit);
    let s2 = deactivate_tier(s1, 3);
    assert forall|k: int|
        0 <= k < ns.len() && ((!ns[k].0.sub() && (ns[k].0.kind() == 0 || ns[k].0.kind() == 1
            || ns[k].0.priority == 0)) || (ns[k].0.sub() && ns[k].0.priority != 2
            && ns[k].0.priority != 3)) implies #[trigger] pruned(ns, limit)[k] == ns[k] by {
        assert(s1[k] == ns[k]);
        assert(s2[k] == ns[k]);
    }
}

/// Pruning never adds tokens, and a buffer already within the limit is left unchanged.
pub proof fn lemma_prune_within_budget(ns: Seq<FlatNode>, limit: u32)
    ensures
        active_tokens(pruned(ns, limit)) <= active_tokens(ns),
        active_tokens(ns) <= limit ==> pruned(ns, limit) == ns,
{
    let s1 = after_first_stage(ns, limit);
    lemma_deactivate_tokens(ns, |j: int| first_stage_evicts(ns, limit, j));
    lemma_deactivate_tokens(s1, |j: int| s1[j].0.sub() && s1[j].0.priority == 3);
    let s2 = deactivate_tier(s1, 3);
    lemma_deactivate_tokens(s2, |j: int| s2[j].0.sub() && s2[j].0.priority == 2);
    if active_tokens(ns) <= limit {
        assert forall|j: int| 0 <= j < ns.len() implies !first_stage_evicts(ns, limit, j) by {
            lemma_tokens_nonneg(ns, |i: int| is_candidate(ns[i].0) && evicted_before(ns, i, j), ns.len() as int);
        }
        assert(s1 =~= ns);
    }
}

/// The budget is only exceeded when nothing prunable is left: every node that
/// is still active is a protected node (System, Instruction, priority 0, or a
/// sub-node outside Tier2 and Tier3).
pub proof fn lemma_prune_auto_expand(ns: Seq<FlatNode>, limit: u32)
    ensures
        active_tokens(pruned(ns, limit)) > limit ==> forall|k: int|
            0 <= k < ns.len() && (#[trigger] pruned(ns, limit)[k]).0.active() ==> !is_candidate(ns[k].0)
                && !(ns[k].0.sub() && (ns[k].0.priority == 2 || ns[k].0.priority == 3)),
{
    let s1 = after_first_stage(ns, limit);
    let s2 = deactivate_tier(s1, 3);
    let s3 = deactivate_tier(s2, 2);
    lemma_first_stage_exhausts(ns, limit);
    lemma_deactivate_tokens(s1, |j: int| s1[j].0.sub() && s1[j].0.priority == 3);
    lemma_deactivate_tokens(s2, |j: int| s2[j].0.sub() && s2[j].0.priority == 2);
    if active_tokens(pruned(ns, limit)) > limit {
        assert(active_tokens(s1) > limit);
        assert(pruned(ns, limit) == s3);
        assert forall|k: int| 0 <= k < ns.len() && (#[trigger] pruned(ns, limit)[k]).0.active() implies !is_candidate(
            ns[k].0,
        ) && !(ns[k].0.sub() && (ns[k].0.priority == 2 || ns[k].0.priority == 3)) by {
            lemma_deactivated_bits(ns[k].0);
            lemma_deactivated_bits(s1[k].0);
            lemma_deactivated_bits(s2[k].0);
        }
    }
}

/// Pruning twice with the same limit is the same as pruning once.
pub proof fn lemma_prune_idempotent(ns: Seq<FlatNode>, limit: u32)
    ensures
        pruned(pruned(ns, limit), limit) == pruned(ns, limit),
{
    let r = pruned(ns, limit);
    lemma_prune_within_budget(r, limit);
    lemma_prune_only_deactivates(ns, limit);
    if active_tokens(r) > limit {
        lemma_prune_auto_expand(ns, limit);
        let r1 = after_first_stage(r, limit);
        assert forall|j: int| 0 <= j < r.len() implies !#[trigger] first_stage_evicts(r, limit, j) by {
            lemma_deactivated_bits(ns[j].0);
        }
        assert(r1 =~= r);
        let r2 = deactivate_tier(r1, 3);
        assert forall|j: int| 0 <= j < r.len() implies #[trigger] r2[j] == r[j] by {
            lemma_deactivated_bits(ns[j].0);
            if r[j].0.sub() && r[j].0.priority == 3 {
                lemma_deactivated_inactive(r[j].0);
            }
        }
        assert(r2 =~= r);
        let r3 = deactivate_tier(r2, 2);
        assert forall|j: int| 0 <= j < r.len() implies #[trigger] r3[j] == r[j] by {
            lemma_deactivated_bits(ns[j].0);
            if r[j].0.sub() && r[j].0.priority == 2 {
                lemma_deactivated_inactive(r[j].0);
            }
        }
        assert(r3 =~= r);
    }
}

/// Every node of a buffer starts on a 16-byte boundary, and the buffer's
/// length is a multiple of 16.
pub proof fn lemma_nodes_aligned(ns: Seq<FlatNode>)
    requires
        all_nodes_wf(ns),
    ensures
        forall|k: int| 0 <= k <= ns.len() ==> #[trigger] node_offset(ns, k) % 16 == 0,
        encode_nodes(ns).len() % 16 == 0,
{
    assert forall|k: int| 0 <= k <= ns.len() implies #[trigger] node_offset(ns, k) % 16 == 0 by {
        lemma_encode_len(ns, k);
    }
    lemma_total_len(ns);
}

/// What is written is read back: at the offset of node `k`, the buffer holds
/// its header fields little-endian, followed by its payload's UTF-8 bytes.
pub proof fn lemma_header_read_back(ns: Seq<FlatNode>, k: int)
    requires
        all_nodes_wf(ns),
        0 <= k < ns.len(),
    ensures
        ({
            let s = encode_nodes(ns);
            let at = node_offset(ns, k) as int;
            &&& at + 16 + ns[k].0.payload_len <= s.len()
            &&& u64_at(s, at) == ns[k].0.node_id
            &&& u32_at(s, at + 8) == ns[k].0.payload_len
            &&& s[at + 12] == ns[k].0.flags
            &&& s[at + 13] == ns[k].0.priority
            &&& u16_at(s, at + 14) == ns[k].0.child_count
            &&& s.subrange(at + 16, at + 16 + ns[k].0.payload_len) == encode_utf8(ns[k].1)
        }),
{
    lemma_split(ns, k);
    let s = encode_nodes(ns);
    let at = node_offset(ns, k) as int;
    let a = encode_nodes(ns.take(k));
    let e = encode_node(ns[k]);
    let c = encode_nodes(ns.skip(k + 1));
    assert(node_wf(ns[k]));
    assert(s.subrange(at, at + e.len()) =~= e);
    assert(s.subrange(at, at + 16) =~= e.subrange(0, 16));
    assert(e.subrange(0, 16) =~= header_bytes(ns[k].0));
    lemma_decode_header(s, at, ns[k].0);
    let t = encode_utf8(ns[k].1);
    assert(e.subrange(16, 16 + t.len() as int) =~= t);
    assert(s.subrange(at + 16, at + 16 + ns[k].0.payload_len) =~= t);
}

proof fn lemma_ahead_subset(ns: Seq<FlatNode>, i: int, j: int)
    requires
        0 <= i < ns.len(),
        0 <= j < ns.len(),
        evicted_before(ns, i, j),
    ensures
        tokens_ahead(ns, i) <= tokens_ahead(ns, j),
{
    let p = |k: int| is_candidate(ns[k].0) && evicted_before(ns, k, i);
    let q = |k: int| is_candidate(ns[k].0) && evicted_before(ns, k, j);
    assert forall|k: int| 0 <= k < ns.len() && #[trigger] p(k) implies q(k) by {}
    lemma_tokens_subset(ns, p, q, ns.len() as int);
}

/// The first pruning stage evicts a prefix of the eviction order: when a
/// candidate is evicted, so is every candidate that comes before it (a larger
/// priority value, or the same value and later in the buffer).
pub proof fn lemma_prune_evicts_in_order(ns: Seq<FlatNode>, limit: u32, i: int, j: int)
    requires
        0 <= i < ns.len(),
        0 <= j < ns.len(),
        first_stage_evicts(ns, limit, j),
        is_candidate(ns[i].0),
        evicted_before(ns, i, j),
    ensures
        first_stage_evicts(ns, limit, i),
{
    lemma_ahead_subset(ns, i, j);
}

/// Pushing a node extends the buffer: the old bytes are kept as a prefix
/// (no earlier header, payload or Active bit changes), both lengths are
/// multiples of 16 so the new node starts on a 16-byte boundary, right where
/// the old buffer ended, and an active node adds its payload length to the
/// token count.
pub proof fn lemma_push_extends(before: &FlatAST, after: &FlatAST, n: FlatNode)
    requires
        before.wf(),
        after.wf(),
        after@ == before@.push(n),
    ensures
        after.bytes().len() > before.bytes().len(),
        after.bytes().subrange(0, before.bytes().len() as int) == before.bytes(),
        after@.take(before@.len() as int) == before@,
        before.bytes().len() % 16 == 0,
        after.bytes().len() % 16 == 0,
        node_offset(after@, before@.len() as int) == before.bytes().len(),
        n.0.active() ==> active_tokens(after@) == active_tokens(before@) + n.0.payload_len,
        !n.0.active() ==> active_tokens(after@) == active_tokens(before@),
{
    before.lemma_bytes();
    after.lemma_bytes();
    let ns = before@;
    let ms = after@;
    assert(ms.drop_last() =~= ns);
    assert(ms.take(ns.len() as int) =~= ns);
    assert(encode_nodes(ms) == encode_nodes(ns) + encode_node(n));
    assert(encode_nodes(ms).subrange(0, encode_nodes(ns).len() as int) =~= encode_nodes(ns));
    lemma_nodes_aligned(ns);
    lemma_nodes_aligned(ms);
    lemma_encode_len(ms, ns.len() as int);
    assert(ms.take(ns.len() as int) =~= ns);
    lemma_tokens_ext(ms, |i: int| ms[i].0.active(), ns, |i: int| ns[i].0.active(), ns.len() as int);
}

/// The node sequence after `logical_delete_node(id)`: the first node with that
/// id is deactivated; without one, nothing changes.
pub open spec fn deleted(ns: Seq<FlatNode>, id: u64) -> Seq<FlatNode> {
    if exists|k: int| first_with_id(ns, id, k) {
        let k = choose|k: int| first_with_id(ns, id, k);
        ns.update(k, (ns[k].0.deactivated(), ns[k].1))
    } else {
        ns
    }
}

/// An edit of a buffer after its nodes were pushed.
pub enum Edit {
    Delete(u64),
    Prune(u32),
}

/// The node sequence after a series of edits, in order.
pub open spec fn apply_edits(ns: Seq<FlatNode>, ops: Seq<Edit>) -> Seq<FlatNode>
    decreases ops.len(),
{
    if ops.len() == 0 {
        ns
    } else {
        let prev = apply_edits(ns, ops.drop_last());
        match ops.last() {
            Edit::Delete(id) => deleted(prev, id),
            Edit::Prune(limit) => pruned(prev, limit),
        }
    }
}

/// `b` is `a` with some nodes deactivated: same length, same payloads, and
/// every header equal or deactivated.
pub open spec fn only_active_changed(a: Seq<FlatNode>, b: Seq<FlatNode>) -> bool {
    &&& a.len() == b.len()
    &&& forall|k: int|
        0 <= k < a.len() ==> (#[trigger] b[k]).1 == a[k].1 && (b[k].0 == a[k].0 || b[k].0
            == a[k].0.deactivated())
}

proof fn lemma_first_with_id_unique(ns: Seq<FlatNode>, id: u64, k1: int, k2: int)
    requires
        first_with_id(ns, id, k1),
        first_with_id(ns, id, k2),
    ensures
        k1 == k2,
{
}

/// Deleting only deactivates.
proof fn lemma_deleted_only_deactivates(ns: Seq<FlatNode>, id: u64)
    ensures
        only_active_changed(ns, deleted(ns, id)),
{
}

proof fn lemma_only_active_trans(a: Seq<FlatNode>, b: Seq<FlatNode>, c: Seq<FlatNode>)
    requires
        only_active_changed(a, b),
        only_active_changed(b, c),
    ensures
        only_active_changed(a, c),
{
    assert forall|k: int| 0 <= k < a.len() implies (#[trigger] c[k]).1 == a[k].1 && (c[k].0 == a[k].0
        || c[k].0 == a[k].0.deactivated()) by {
        lemma_deactivated_bits(a[k].0);
        assert(b[k].1 == a[k].1);
    }
}

proof fn lemma_only_active_offsets(a: Seq<FlatNode>, b: Seq<FlatNode>, k: int)
    requires
        only_active_changed(a, b),
        k <= a.len(),
    ensures
        node_offset(b, k) == node_offset(a, k),
    decreases k,
{
    if k > 0 {
        lemma_only_active_offsets(a, b, k - 1);
        lemma_deactivated_bits(a[k - 1].0);
        assert(b[k - 1].0.payload_len == a[k - 1].0.payload_len);
    }
}

/// Any series of deletes and prunes after the pushes changes nothing but
/// Active bits: the same nodes, in the same order, at the same byte offsets,
/// with the same payloads, ids, payload lengths, types, sub-node bits,
/// priorities and child counts; an Active bit can only go from set to clear.
pub proof fn lemma_edits_only_deactivate(ns: Seq<FlatNode>, ops: Seq<Edit>)
    ensures
        only_active_changed(ns, apply_edits(ns, ops)),
        forall|k: int|
            0 <= k <= ns.len() ==> #[trigger] node_offset(apply_edits(ns, ops), k) == node_offset(ns, k),
        forall|k: int|
            0 <= k < ns.len() ==> {
                let h = (#[trigger] apply_edits(ns, ops)[k]).0;
                &&& h.node_id == ns[k].0.node_id
                &&& h.payload_len == ns[k].0.payload_len
                &&& h.kind() == ns[k].0.kind()
                &&& h.sub() == ns[k].0.sub()
                &&& h.priority == ns[k].0.priority
                &&& h.child_count == ns[k].0.child_count
                &&& h.active() ==> ns[k].0.active()
            },
    decreases ops.len(),
{
    let r = apply_edits(ns, ops);
    if ops.len() == 0 {
        assert(only_active_changed(ns, ns));
    } else {
        let prev = apply_edits(ns, ops.drop_last());
        lemma_edits_only_deactivate(ns, ops.drop_last());
        match ops.last() {
            Edit::Delete(id) => {
                lemma_deleted_only_deactivates(prev, id);
            },
            Edit::Prune(limit) => {
                lemma_prune_only_deactivates(prev, limit);
            },
        }
        lemma_only_active_trans(ns, prev, r);
    }
    assert forall|k: int| 0 <= k <= ns.len() implies #[trigger] node_offset(r, k) == node_offset(ns, k) by {
        lemma_only_active_offsets(ns, r, k);
    }
    assert forall|k: int| 0 <= k < ns.len() implies {
        let h = (#[trigger] r[k]).0;
        &&& h.node_id == ns[k].0.node_id
        &&& h.payload_len == ns[k].0.payload_len
        &&& h.kind() == ns[k].0.kind()
        &&& h.sub() == ns[k].0.sub()
        &&& h.priority == ns[k].0.priority
        &&& h.child_count == ns[k].0.child_count
        &&& h.active() ==> ns[k].0.active()
    } by {
        lemma_deactivated_bits(ns[k].0);
    }
}

/// A tighter budget never keeps more: with `l1 <= l2`, every node still
/// active after pruning to `l1` is still active after pruning to `l2`, and
/// the token count after `l1` is at most the count after `l2`.
pub proof fn lemma_prune_monotone(ns: Seq<FlatNode>, l1: u32, l2: u32)
    requires
        l1 <= l2,
    ensures
        forall|k: int|
            0 <= k < ns.len() && (#[trigger] pruned(ns, l1)[k]).0.active() ==> pruned(ns, l2)[k].0.active(),
        active_tokens(pruned(ns, l1)) <= active_tokens(pruned(ns, l2)),
{
    let a1 = after_first_stage(ns, l1);
    let b1 = after_first_stage(ns, l2);
    let pa = pruned(ns, l1);
    let pb = pruned(ns, l2);
    lemma_prune_only_deactivates(ns, l1);
    lemma_prune_only_deactivates(ns, l2);
    lemma_first_stage_exhausts(ns, l2);
    if active_tokens(b1) > l2 {
        assert forall|j: int| 0 <= j < ns.len() implies #[trigger] first_stage_evicts(ns, l1, j)
            == first_stage_evicts(ns, l2, j) by {
            if is_candidate(ns[j].0) {
                assert(first_stage_evicts(ns, l2, j));
            }
        }
        assert(a1 =~= b1);
    }
    assert forall|k: int| 0 <= k < ns.len() && (#[trigger] pa[k]).0.active() implies pb[k].0.active() by {
        let s2 = deactivate_tier(a1, 3);
        lemma_deactivated_bits(ns[k].0);
        lemma_deactivated_bits(a1[k].0);
        lemma_deactivated_bits(s2[k].0);
        assert(a1[k].0.active());
        assert(!first_stage_evicts(ns, l1, k));
        assert(!first_stage_evicts(ns, l2, k));
    }
    lemma_tokens_subset(pa, |i: int| pa[i].0.active(), |i: int| pb[i].0.active(), ns.len() as int);
    assert forall|i: int| 0 <= i < ns.len() implies pa[i].0.payload_len == pb[i].0.payload_len by {
        lemma_deactivated_bits(ns[i].0);
    }
    lemma_tokens_ext(pa, |i: int| pb[i].0.active(), pb, |i: int| pb[i].0.active(), ns.len() as int);
}

/// Offset of the record that follows a record at `off` whose payload has `payload_len` bytes.
fn next_offset(off: usize, payload_len: u32) -> (r: usize)
    requires
        off + 16 + payload_len + pad_len(payload_len as nat) <= usize::MAX,
    ensures
        r == off + 16 + payload_len + pad_len(payload_len as nat),
{
    off + 16 + payload_len as usize + ((16 - (payload_len % 16)) % 16) as usize
}

} // verus!
