use vstd::prelude::*;
use crate::bbox::GeoBBox;
use crate::index::GeoIndex;
use crate::node::GeoNode;
use crate::tree::threaded;

verus! {

/// Bytes before the first node: a 4-byte magic, a version byte and the
/// node count as a little-endian u64.
pub const HEADER_LEN: usize = 13;

/// Bytes per node: four u32 coordinates, a leaf flag and three u64 values.
pub const NODE_LEN: usize = 41;

/// The format version written and accepted.
pub const VERSION: u8 = 1;

/// The magic and version that open an index file: "GIDX", then 1.
pub open spec fn magic() -> Seq<u8> {
    seq![0x47u8, 0x49u8, 0x44u8, 0x58u8, VERSION]
}

pub open spec fn u32_le(x: u32) -> Seq<u8> {
    seq![
        (x & 0xff) as u8,
        ((x >> 8u32) & 0xff) as u8,
        ((x >> 16u32) & 0xff) as u8,
        ((x >> 24u32) & 0xff) as u8,
    ]
}

pub open spec fn u64_le(x: u64) -> Seq<u8> {
    seq![
        (x & 0xff) as u8,
        ((x >> 8u64) & 0xff) as u8,
        ((x >> 16u64) & 0xff) as u8,
        ((x >> 24u64) & 0xff) as u8,
        ((x >> 32u64) & 0xff) as u8,
        ((x >> 40u64) & 0xff) as u8,
        ((x >> 48u64) & 0xff) as u8,
        ((x >> 56u64) & 0xff) as u8,
    ]
}

/// The little-endian u32 at position `p`.
pub open spec fn u32_at(b: Seq<u8>, p: int) -> u32 {
    (b[p] as u32) | ((b[p + 1] as u32) << 8u32) | ((b[p + 2] as u32) << 16u32) | ((b[p + 3] as u32)
        << 24u32)
}

/// The little-endian u64 at position `p`.
pub open spec fn u64_at(b: Seq<u8>, p: int) -> u64 {
    (b[p] as u64) | ((b[p + 1] as u64) << 8u64) | ((b[p + 2] as u64) << 16u64) | ((b[p + 3] as u64)
        << 24u64) | ((b[p + 4] as u64) << 32u64) | ((b[p + 5] as u64) << 40u64) | ((b[p + 6] as u64)
        << 48u64) | ((b[p + 7] as u64) << 56u64)
}

/// The encoding of one node.
pub open spec fn node_bytes(n: GeoNode) -> Seq<u8> {
    u32_le(n.bbox.x_min) + u32_le(n.bbox.x_max) + u32_le(n.bbox.y_min) + u32_le(n.bbox.y_max)
        + seq![if n.is_leaf { 1u8 } else { 0u8 }] + u64_le(n.value1 as u64) + u64_le(
        n.value2 as u64,
    ) + u64_le(n.next as u64)
}

/// The encodings of the nodes, one after another.
pub open spec fn nodes_bytes(ns: Seq<GeoNode>) -> Seq<u8>
    decreases ns.len(),
{
    if ns.len() == 0 {
        seq![]
    } else {
        nodes_bytes(ns.drop_last()) + node_bytes(ns.last())
    }
}

/// The index file of a node array.
pub open spec fn encode(ns: Seq<GeoNode>) -> Seq<u8> {
    magic() + u64_le(ns.len() as u64) + nodes_bytes(ns)
}

/// The node whose encoding starts at position `p`.
#[verifier::opaque]
pub open spec fn node_at(b: Seq<u8>, p: int) -> GeoNode {
    GeoNode {
        bbox: GeoBBox {
            x_min: u32_at(b, p),
            x_max: u32_at(b, p + 4),
            y_min: u32_at(b, p + 8),
            y_max: u32_at(b, p + 12),
        },
        is_leaf: b[p + 16] == 1,
        value1: u64_at(b, p + 17) as usize,
        value2: u64_at(b, p + 25) as usize,
        next: u64_at(b, p + 33) as usize,
    }
}

/// The number of nodes that an index file announces.
pub open spec fn node_count(b: Seq<u8>) -> int {
    (b.len() - HEADER_LEN) / (NODE_LEN as int)
}

/// The nodes that a well-framed index file holds.
pub open spec fn decoded(b: Seq<u8>) -> Seq<GeoNode> {
    Seq::new(node_count(b) as nat, |k: int| node_at(b, HEADER_LEN + NODE_LEN * k))
}

/// The record at `p` has a leaf flag of 0 or 1 and values that fit a usize.
pub open spec fn record_ok(b: Seq<u8>, p: int) -> bool {
    &&& b[p + 16] <= 1
    &&& u64_at(b, p + 17) <= usize::MAX
    &&& u64_at(b, p + 25) <= usize::MAX
    &&& u64_at(b, p + 33) <= usize::MAX
}

/// An index file that loads: the magic and version, a count that matches
/// the length, sound records, and a threaded tree in them.
pub open spec fn loadable(b: Seq<u8>) -> bool {
    &&& b.len() >= HEADER_LEN
    &&& b.subrange(0, 5) == magic()
    &&& (b.len() - HEADER_LEN) % (NODE_LEN as int) == 0
    &&& u64_at(b, 5) == node_count(b)
    &&& forall|k: int| 0 <= k < node_count(b) ==> #[trigger] record_ok(b, HEADER_LEN + NODE_LEN * k)
    &&& threaded(decoded(b))
}

fn push_u32(out: &mut Vec<u8>, x: u32)
    ensures
        final(out)@ == old(out)@ + u32_le(x),
{
    out.push((x & 0xff) as u8);
    out.push(((x >> 8) & 0xff) as u8);
    out.push(((x >> 16) & 0xff) as u8);
    out.push(((x >> 24) & 0xff) as u8);
    assert(final(out)@ =~= old(out)@ + u32_le(x));
}

fn push_u64(out: &mut Vec<u8>, x: u64)
    ensures
        final(out)@ == old(out)@ + u64_le(x),
{
    out.push((x & 0xff) as u8);
    out.push(((x >> 8) & 0xff) as u8);
    out.push(((x >> 16) & 0xff) as u8);
    out.push(((x >> 24) & 0xff) as u8);
    out.push(((x >> 32) & 0xff) as u8);
    out.push(((x >> 40) & 0xff) as u8);
    out.push(((x >> 48) & 0xff) as u8);
    out.push(((x >> 56) & 0xff) as u8);
    assert(final(out)@ =~= old(out)@ + u64_le(x));
}

fn read_u32(b: &[u8], p: usize) -> (r: u32)
    requires
        p + 4 <= b@.len(),
    ensures
        r == u32_at(b@, p as int),
{
    (b[p] as u32) | ((b[p + 1] as u32) << 8) | ((b[p + 2] as u32) << 16) | ((b[p + 3] as u32) << 24)
}

fn read_u64(b: &[u8], p: usize) -> (r: u64)
    requires
        p + 8 <= b@.len(),
    ensures
        r == u64_at(b@, p as int),
{
    (b[p] as u64) | ((b[p + 1] as u64) << 8) | ((b[p + 2] as u64) << 16) | ((b[p + 3] as u64) << 24)
        | ((b[p + 4] as u64) << 32) | ((b[p + 5] as u64) << 40) | ((b[p + 6] as u64) << 48) | ((b[p
        + 7] as u64) << 56)
}

/// Why an index file could not be loaded.
#[derive(Clone, Copy, PartialEq, Eq, Structural, Debug)]
pub enum LoadError {
    /// Wrong magic or version, or a length that does not match the count.
    BadHeader,
    /// A record holds a bad leaf flag or a value too large for this machine.
    BadRecord,
    /// The records do not form a threaded tree.
    BadTree,
}

impl GeoIndex {
    /// The index file: magic, version, node count, then each node.
    #[verifier::rlimit(60)]
    pub fn to_bytes(&self) -> (r: Vec<u8>)
        ensures
            r@ == encode(self.nodes@),
    {
        let mut out: Vec<u8> = Vec::new();
        out.push(0x47);
        out.push(0x49);
        out.push(0x44);
        out.push(0x58);
        out.push(VERSION);
        push_u64(&mut out, self.nodes.len() as u64);
        let ghost head = out@;
        assert(head =~= magic() + u64_le(self.nodes.len() as u64));
        let mut i: usize = 0;
        while i < self.nodes.len()
            invariant
                0 <= i <= self.nodes.len(),
                head == magic() + u64_le(self.nodes.len() as u64),
                out@ == head + nodes_bytes(self.nodes@.subrange(0, i as int)),
            decreases self.nodes.len() - i,
        {
            let n = self.nodes[i];
            let ghost before = out@;
            push_u32(&mut out, n.bbox.x_min);
            push_u32(&mut out, n.bbox.x_max);
            push_u32(&mut out, n.bbox.y_min);
            push_u32(&mut out, n.bbox.y_max);
            out.push(if n.is_leaf { 1 } else { 0 });
            push_u64(&mut out, n.value1 as u64);
            push_u64(&mut out, n.value2 as u64);
            push_u64(&mut out, n.next as u64);
            proof {
                let s = self.nodes@.subrange(0, i + 1);
                assert(s.drop_last() =~= self.nodes@.subrange(0, i as int));
                assert(out@ =~= before + node_bytes(n));
            }
            i += 1;
        }
        assert(self.nodes@.subrange(0, self.nodes.len() as int) =~= self.nodes@);
        out
    }

    /// Reads an index file, checking its framing, its records and the tree
    /// they form.
    pub fn load(b: &[u8]) -> (r: Result<GeoIndex, LoadError>)
        ensures
            r is Ok <==> loadable(b@),
            r is Ok ==> r->Ok_0.nodes@ == decoded(b@) && threaded(r->Ok_0.nodes@),
    {
        let len = b.len();
        if len < HEADER_LEN || b[0] != 0x47 || b[1] != 0x49 || b[2] != 0x44 || b[3] != 0x58 || b[4]
            != VERSION {
            proof {
                if len >= HEADER_LEN {
                    assert(b@.subrange(0, 5)[0] == b@[0]);
                    assert(b@.subrange(0, 5)[1] == b@[1]);
                    assert(b@.subrange(0, 5)[2] == b@[2]);
                    assert(b@.subrange(0, 5)[3] == b@[3]);
                    assert(b@.subrange(0, 5)[4] == b@[4]);
                }
            }
            return Err(LoadError::BadHeader);
        }
        assert(b@.subrange(0, 5) =~= magic());
        let count = (len - HEADER_LEN) / NODE_LEN;
        if (len - HEADER_LEN) % NODE_LEN != 0 || read_u64(b, 5) != count as u64 {
            return Err(LoadError::BadHeader);
        }
        let mut nodes: Vec<GeoNode> = Vec::new();
        let mut k: usize = 0;
        while k < count
            invariant
                len == b@.len(),
                count == node_count(b@),
                HEADER_LEN + NODE_LEN * count <= len,
                0 <= k <= count,
                nodes@.len() == k,
                forall|j: int| 0 <= j < k ==> #[trigger] record_ok(b@, HEADER_LEN + NODE_LEN * j),
                forall|j: int|
                    0 <= j < k ==> #[trigger] nodes@[j] == node_at(b@, HEADER_LEN + NODE_LEN * j),
            decreases count - k,
        {
            proof {
                assert(HEADER_LEN + NODE_LEN * (k + 1) <= len) by (nonlinear_arith)
                    requires
                        k + 1 <= count,
                        HEADER_LEN + NODE_LEN * count <= len,
                ;
            }
            let p = HEADER_LEN + NODE_LEN * k;
            let flag = b[p + 16];
            let v1 = read_u64(b, p + 17);
            let v2 = read_u64(b, p + 25);
            let nx = read_u64(b, p + 33);
            if flag > 1 || v1 > usize::MAX as u64 || v2 > usize::MAX as u64 || nx > usize::MAX as u64 {
                assert(!record_ok(b@, HEADER_LEN + NODE_LEN * k));
                return Err(LoadError::BadRecord);
            }
            proof {
                reveal(node_at);
            }
            let bbox = GeoBBox {
                x_min: read_u32(b, p),
                x_max: read_u32(b, p + 4),
                y_min: read_u32(b, p + 8),
                y_max: read_u32(b, p + 12),
            };
            nodes.push(
                GeoNode {
                    bbox,
                    is_leaf: flag == 1,
                    value1: v1 as usize,
                    value2: v2 as usize,
                    next: nx as usize,
                },
            );
            k += 1;
        }
        assert(nodes@ =~= decoded(b@));
        let index = GeoIndex { nodes };
        if !index.is_threaded() {
            return Err(LoadError::BadTree);
        }
        Ok(index)
    }
}

proof fn lemma_u32_round(b: Seq<u8>, p: int, x: u32)
    requires
        0 <= p,
        p + 4 <= b.len(),
        b.subrange(p, p + 4) == u32_le(x),
    ensures
        u32_at(b, p) == x,
{
    assert(b[p] == b.subrange(p, p + 4)[0]);
    assert(b[p + 1] == b.subrange(p, p + 4)[1]);
    assert(b[p + 2] == b.subrange(p, p + 4)[2]);
    assert(b[p + 3] == b.subrange(p, p + 4)[3]);
    assert(((x & 0xff) as u8 as u32) | ((((x >> 8u32) & 0xff) as u8 as u32) << 8u32) | ((((x
        >> 16u32) & 0xff) as u8 as u32) << 16u32) | ((((x >> 24u32) & 0xff) as u8 as u32) << 24u32)
        == x) by (bit_vector);
}

proof fn lemma_u64_round(b: Seq<u8>, p: int, x: u64)
    requires
        0 <= p,
        p + 8 <= b.len(),
        b.subrange(p, p + 8) == u64_le(x),
    ensures
        u64_at(b, p) == x,
{
    let s = b.subrange(p, p + 8);
    assert(b[p] == s[0]);
    assert(b[p + 1] == s[1]);
    assert(b[p + 2] == s[2]);
    assert(b[p + 3] == s[3]);
    assert(b[p + 4] == s[4]);
    assert(b[p + 5] == s[5]);
    assert(b[p + 6] == s[6]);
    assert(b[p + 7] == s[7]);
    assert(((x & 0xff) as u8 as u64) | ((((x >> 8u64) & 0xff) as u8 as u64) << 8u64) | ((((x
        >> 16u64) & 0xff) as u8 as u64) << 16u64) | ((((x >> 24u64) & 0xff) as u8 as u64) << 24u64)
        | ((((x >> 32u64) & 0xff) as u8 as u64) << 32u64) | ((((x >> 40u64) & 0xff) as u8 as u64)
        << 40u64) | ((((x >> 48u64) & 0xff) as u8 as u64) << 48u64) | ((((x >> 56u64) & 0xff) as u8
        as u64) << 56u64) == x) by (bit_vector);
}

/// A node's encoding, read back where it was written, gives the node.
proof fn lemma_node_round(b: Seq<u8>, p: int, n: GeoNode)
    requires
        0 <= p,
        p + NODE_LEN <= b.len(),
        b.subrange(p, p + NODE_LEN) == node_bytes(n),
    ensures
        node_at(b, p) == n,
        record_ok(b, p),
{
    reveal(node_at);
    let nb = node_bytes(n);
    let w = b.subrange(p, p + NODE_LEN);
    assert(nb.subrange(0, 4) =~= u32_le(n.bbox.x_min));
    assert(nb.subrange(4, 8) =~= u32_le(n.bbox.x_max));
    assert(nb.subrange(8, 12) =~= u32_le(n.bbox.y_min));
    assert(nb.subrange(12, 16) =~= u32_le(n.bbox.y_max));
    assert(nb.subrange(17, 25) =~= u64_le(n.value1 as u64));
    assert(nb.subrange(25, 33) =~= u64_le(n.value2 as u64));
    assert(nb.subrange(33, 41) =~= u64_le(n.next as u64));
    assert(b.subrange(p, p + 4) =~= w.subrange(0, 4));
    assert(b.subrange(p + 4, p + 8) =~= w.subrange(4, 8));
    assert(b.subrange(p + 8, p + 12) =~= w.subrange(8, 12));
    assert(b.subrange(p + 12, p + 16) =~= w.subrange(12, 16));
    assert(b.subrange(p + 17, p + 25) =~= w.subrange(17, 25));
    assert(b.subrange(p + 25, p + 33) =~= w.subrange(25, 33));
    assert(b.subrange(p + 33, p + 41) =~= w.subrange(33, 41));
    assert(b[p + 16] == w[16]);
    lemma_u32_round(b, p, n.bbox.x_min);
    lemma_u32_round(b, p + 4, n.bbox.x_max);
    lemma_u32_round(b, p + 8, n.bbox.y_min);
    lemma_u32_round(b, p + 12, n.bbox.y_max);
    assert(b[p + 16] == nb[16]);
    lemma_u64_round(b, p + 17, n.value1 as u64);
    lemma_u64_round(b, p + 25, n.value2 as u64);
    lemma_u64_round(b, p + 33, n.next as u64);
}

proof fn lemma_nodes_bytes(ns: Seq<GeoNode>, k: int)
    requires
        0 <= k < ns.len(),
    ensures
        nodes_bytes(ns).len() == NODE_LEN * ns.len(),
        nodes_bytes(ns).subrange(NODE_LEN * k, NODE_LEN * k + NODE_LEN) == node_bytes(ns[k]),
    decreases ns.len(),
{
    let init = ns.drop_last();
    assert(node_bytes(ns.last()).len() == NODE_LEN);
    if init.len() > 0 {
        lemma_nodes_bytes(init, 0);
    } else {
        assert(nodes_bytes(init) =~= seq![]);
    }
    if k == ns.len() - 1 {
        assert(nodes_bytes(ns).subrange(NODE_LEN * k, NODE_LEN * k + NODE_LEN) =~= node_bytes(
            ns[k],
        ));
    } else {
        lemma_nodes_bytes(init, k);
        assert(init[k] == ns[k]);
        assert(nodes_bytes(ns).subrange(NODE_LEN * k, NODE_LEN * k + NODE_LEN) =~= nodes_bytes(
            init,
        ).subrange(NODE_LEN * k, NODE_LEN * k + NODE_LEN));
    }
}

proof fn lemma_record_round(ns: Seq<GeoNode>, k: int)
    requires
        0 <= k < ns.len(),
    ensures
        record_ok(encode(ns), HEADER_LEN + NODE_LEN * k),
        node_at(encode(ns), HEADER_LEN + NODE_LEN * k) == ns[k],
{
    let b = encode(ns);
    lemma_nodes_bytes(ns, k);
    assert(NODE_LEN * k + NODE_LEN <= NODE_LEN * ns.len()) by (nonlinear_arith)
        requires
            k < ns.len(),
    ;
    let p = HEADER_LEN + NODE_LEN * k;
    assert(b.subrange(p, p + NODE_LEN) =~= nodes_bytes(ns).subrange(
        NODE_LEN * k,
        NODE_LEN * k + NODE_LEN,
    ));
    lemma_node_round(b, p, ns[k]);
}

proof fn lemma_header_round(ns: Seq<GeoNode>)
    ensures
        encode(ns).len() == HEADER_LEN + NODE_LEN * ns.len(),
        encode(ns).subrange(0, 5) == magic(),
        u64_at(encode(ns), 5) == ns.len() as u64,
        (encode(ns).len() - HEADER_LEN) % (NODE_LEN as int) == 0,
        node_count(encode(ns)) == ns.len(),
{
    let b = encode(ns);
    let n = ns.len() as int;
    if n > 0 {
        lemma_nodes_bytes(ns, 0);
    } else {
        assert(nodes_bytes(ns) =~= seq![]);
    }
    let head = magic() + u64_le(n as u64);
    assert(b == head + nodes_bytes(ns));
    assert(b.subrange(0, 5) =~= head.subrange(0, 5));
    assert(head.subrange(0, 5) =~= magic());
    assert(b.subrange(5, 13) =~= head.subrange(5, 13));
    assert(head.subrange(5, 13) =~= u64_le(n as u64));
    lemma_u64_round(b, 5, n as u64);
    assert((NODE_LEN * n) % (NODE_LEN as int) == 0 && (NODE_LEN * n) / (NODE_LEN as int) == n)
        by (nonlinear_arith);
}

/// Writing an index file and reading it back gives the same tree.
pub proof fn lemma_codec_round_trip(ns: Seq<GeoNode>)
    requires
        threaded(ns),
        ns.len() <= usize::MAX,
    ensures
        loadable(encode(ns)),
        decoded(encode(ns)) == ns,
{
    let b = encode(ns);
    lemma_header_round(ns);
    assert forall|k: int| 0 <= k < node_count(b) implies #[trigger] record_ok(
        b,
        HEADER_LEN + NODE_LEN * k,
    ) by {
        lemma_record_round(ns, k);
    }
    assert forall|k: int| 0 <= k < ns.len() implies #[trigger] decoded(b)[k] == ns[k] by {
        lemma_record_round(ns, k);
    }
    assert(decoded(b) =~= ns);
}

} // verus!
