//! The index file: how its records stand in bytes.
//!
//! A header of 16 bytes (the magic, the number of partitions and the number of
//! nodes), then 80 bytes for each partition, then 48 bytes for each node. All
//! numbers are little-endian.

use crate::layout::{Node, PartitionHeader};
use vstd::prelude::*;

verus! {

/// Size of the header in bytes.
pub const HEADER_SIZE: usize = 16;

/// Size of a partition in bytes.
pub const PARTITION_SIZE: usize = 80;

/// Size of a node in bytes.
pub const NODE_SIZE: usize = 48;

/// The bytes that every index file starts with: `RNSPSCT1`.
pub open spec fn magic() -> Seq<u8> {
    seq![82u8, 78, 83, 80, 83, 67, 84, 49]
}

/// The unsigned 16-bit number at a position.
pub open spec fn u16_at(b: Seq<u8>, at: int) -> int {
    b[at] + 256 * b[at + 1]
}

/// The signed 16-bit number at a position, in two's complement.
pub open spec fn i16_at(b: Seq<u8>, at: int) -> int {
    if u16_at(b, at) < 0x8000 {
        u16_at(b, at)
    } else {
        u16_at(b, at) - 0x1_0000
    }
}

/// The unsigned 32-bit number at a position.
pub open spec fn u32_at(b: Seq<u8>, at: int) -> int {
    u16_at(b, at) + 0x1_0000 * u16_at(b, at + 2)
}

/// The signed 32-bit number at a position, in two's complement.
pub open spec fn i32_at(b: Seq<u8>, at: int) -> int {
    if u32_at(b, at) < 0x8000_0000 {
        u32_at(b, at)
    } else {
        u32_at(b, at) - 0x1_0000_0000
    }
}

/// The lanes of a vector stand at a position.
pub open spec fn lanes_at(b: Seq<u8>, at: int, lanes: Seq<i16>) -> bool {
    &&& lanes.len() == 16
    &&& forall|l: int| 0 <= l < 16 ==> #[trigger] lanes[l] == i16_at(b, at + 2 * l)
}

/// A partition stands at a position.
pub open spec fn partition_at(b: Seq<u8>, at: int, p: PartitionHeader) -> bool {
    &&& p.key == u32_at(b, at)
    &&& p.root == u32_at(b, at + 4)
    &&& p.count == u32_at(b, at + 8)
    &&& lanes_at(b, at + 16, p.min@)
    &&& lanes_at(b, at + 48, p.max@)
}

/// A node stands at a position.
pub open spec fn node_at(b: Seq<u8>, at: int, node: Node) -> bool {
    &&& lanes_at(b, at, node.vector@)
    &&& node.radius_sq == i32_at(b, at + 32)
    &&& node.left == u32_at(b, at + 36)
    &&& node.right == u32_at(b, at + 40)
    &&& node.label == b[at + 44]
}

/// Calls `bytemuck::pod_read_unaligned` for a `u16`.
///
/// It reads two bytes as a number of the machine's own byte order, whatever
/// their alignment, and panics on any other length; `u16::from_le` turns a
/// little-endian reading into the machine's. That this gives the low byte first
/// on every machine is not proved.
#[verifier::external_body]
fn read_u16(bytes: &[u8]) -> (r: u16)
    requires
        bytes@.len() == 2,
    ensures
        r == bytes@[0] + 256 * bytes@[1],
{
    u16::from_le(bytemuck::pod_read_unaligned(bytes))
}

/// Calls `bytemuck::cast` from a `u16` to its bytes.
///
/// It hands back the bytes of the number as the machine holds them;
/// `u16::to_le` puts the low byte first beforehand. That this does so on every
/// machine is not proved.
#[verifier::external_body]
fn u16_bytes(x: u16) -> (r: [u8; 2])
    ensures
        r@ == seq![(x % 256) as u8, (x / 256) as u8],
{
    bytemuck::cast(x.to_le())
}

/// Reads the unsigned 16-bit number at a position.
fn get_u16(bytes: &[u8], at: usize) -> (r: u16)
    requires
        at + 2 <= bytes.len(),
    ensures
        r == u16_at(bytes@, at as int),
{
    read_u16(vstd::slice::slice_subrange(bytes, at, at + 2))
}

/// Reads the signed 16-bit number at a position.
fn get_i16(bytes: &[u8], at: usize) -> (r: i16)
    requires
        at + 2 <= bytes.len(),
    ensures
        r == i16_at(bytes@, at as int),
{
    let x: u16 = get_u16(bytes, at);
    assert(x < 0x8000 ==> x as i16 == x) by (bit_vector);
    assert(x >= 0x8000 ==> x as i16 == x - 0x1_0000) by (bit_vector);
    #[verifier::truncate] (x as i16)
}

/// Reads the unsigned 32-bit number at a position.
pub(crate) fn get_u32(bytes: &[u8], at: usize) -> (r: u32)
    requires
        at + 4 <= bytes.len(),
    ensures
        r == u32_at(bytes@, at as int),
{
    get_u16(bytes, at) as u32 + 0x1_0000 * get_u16(bytes, at + 2) as u32
}

/// Reads the signed 32-bit number at a position.
fn get_i32(bytes: &[u8], at: usize) -> (r: i32)
    requires
        at + 4 <= bytes.len(),
    ensures
        r == i32_at(bytes@, at as int),
{
    let x: u32 = get_u32(bytes, at);
    assert(x < 0x8000_0000 ==> x as i32 == x) by (bit_vector);
    assert(x >= 0x8000_0000 ==> x as i32 == x - 0x1_0000_0000) by (bit_vector);
    #[verifier::truncate] (x as i32)
}

/// Reads the lanes of a vector.
fn get_lanes(bytes: &[u8], at: usize) -> (r: [i16; 16])
    requires
        at + 32 <= bytes.len(),
    ensures
        lanes_at(bytes@, at as int, r@),
{
    let mut r: [i16; 16] = [0; 16];
    let mut l: usize = 0;
    while l < 16
        invariant
            l <= 16,
            at + 32 <= bytes.len(),
            forall|k: int| 0 <= k < l ==> #[trigger] r@[k] == i16_at(bytes@, at + 2 * k),
        decreases 16 - l,
    {
        r[l] = get_i16(bytes, at + 2 * l);
        l = l + 1;
    }
    r
}

/// Reads a partition.
pub(crate) fn get_partition(bytes: &[u8], at: usize) -> (r: PartitionHeader)
    requires
        at + PARTITION_SIZE <= bytes.len(),
    ensures
        partition_at(bytes@, at as int, r),
{
    PartitionHeader {
        key: get_u32(bytes, at),
        root: get_u32(bytes, at + 4),
        count: get_u32(bytes, at + 8),
        min: get_lanes(bytes, at + 16),
        max: get_lanes(bytes, at + 48),
    }
}

/// Reads a node.
pub(crate) fn get_node(bytes: &[u8], at: usize) -> (r: Node)
    requires
        at + NODE_SIZE <= bytes.len(),
    ensures
        node_at(bytes@, at as int, r),
{
    Node {
        vector: get_lanes(bytes, at),
        radius_sq: get_i32(bytes, at + 32),
        left: get_u32(bytes, at + 36),
        right: get_u32(bytes, at + 40),
        label: bytes[at + 44],
    }
}

/// `n` bytes have been appended to `old`.
pub open spec fn extends(new: Seq<u8>, old: Seq<u8>, n: int) -> bool {
    &&& new.len() == old.len() + n
    &&& forall|i: int| 0 <= i < old.len() ==> #[trigger] new[i] == old[i]
}

/// Appends an unsigned 16-bit number.
fn put_u16(out: &mut Vec<u8>, x: u16)
    ensures
        extends(final(out)@, old(out)@, 2),
        u16_at(final(out)@, old(out)@.len() as int) == x,
{
    let b: [u8; 2] = u16_bytes(x);
    out.push(b[0]);
    out.push(b[1]);
}

/// Appends a signed 16-bit number.
fn put_i16(out: &mut Vec<u8>, x: i16)
    ensures
        extends(final(out)@, old(out)@, 2),
        i16_at(final(out)@, old(out)@.len() as int) == x,
{
    assert(x >= 0 ==> x as u16 == x) by (bit_vector);
    assert(x < 0 ==> x as u16 == x + 0x1_0000) by (bit_vector);
    put_u16(out, #[verifier::truncate] (x as u16));
}

/// Appends an unsigned 32-bit number.
fn put_u32(out: &mut Vec<u8>, x: u32)
    ensures
        extends(final(out)@, old(out)@, 4),
        u32_at(final(out)@, old(out)@.len() as int) == x,
{
    let ghost before = out@;
    put_u16(out, (x % 0x1_0000) as u16);
    let ghost half = out@;
    put_u16(out, (x / 0x1_0000) as u16);
    proof {
        assert(u16_at(out@, before.len() as int) == u16_at(half, before.len() as int));
    }
}

/// Appends a signed 32-bit number.
fn put_i32(out: &mut Vec<u8>, x: i32)
    ensures
        extends(final(out)@, old(out)@, 4),
        i32_at(final(out)@, old(out)@.len() as int) == x,
{
    assert(x >= 0 ==> x as u32 == x) by (bit_vector);
    assert(x < 0 ==> x as u32 == x + 0x1_0000_0000) by (bit_vector);
    put_u32(out, #[verifier::truncate] (x as u32));
}

/// Appends the lanes of a vector.
fn put_lanes(out: &mut Vec<u8>, lanes: &[i16; 16])
    ensures
        extends(final(out)@, old(out)@, 32),
        lanes_at(final(out)@, old(out)@.len() as int, lanes@),
{
    let ghost before = out@;
    let mut l: usize = 0;
    while l < 16
        invariant
            l <= 16,
            extends(out@, before, 2 * l as int),
            forall|k: int|
                0 <= k < l ==> #[trigger] lanes@[k] == i16_at(out@, before.len() + 2 * k),
        decreases 16 - l,
    {
        let ghost mid = out@;
        put_i16(out, lanes[l]);
        proof {
            assert forall|k: int| 0 <= k < l + 1 implies #[trigger] lanes@[k] == i16_at(
                out@,
                before.len() + 2 * k,
            ) by {
                if k < l {
                    assert(u16_at(out@, before.len() + 2 * k) == u16_at(
                        mid,
                        before.len() + 2 * k,
                    ));
                }
            }
        }
        l = l + 1;
    }
}

/// Bytes that stay where they were: what stood in `old` stands in `new`.
proof fn lemma_extends_keeps(new: Seq<u8>, old: Seq<u8>, n: int, at: int)
    requires
        extends(new, old, n),
        0 <= at,
    ensures
        at + 4 <= old.len() ==> u32_at(new, at) == u32_at(old, at) && i32_at(new, at) == i32_at(
            old,
            at,
        ),
        forall|lanes: Seq<i16>|
            at + 32 <= old.len() && #[trigger] lanes_at(old, at, lanes) ==> lanes_at(new, at, lanes),
        forall|p: PartitionHeader|
            at + PARTITION_SIZE <= old.len() && #[trigger] partition_at(old, at, p)
                ==> partition_at(new, at, p),
        forall|node: Node|
            at + NODE_SIZE <= old.len() && #[trigger] node_at(old, at, node) ==> node_at(
                new,
                at,
                node,
            ),
{
    assert forall|lanes: Seq<i16>, to: int|
        0 <= to && to + 32 <= old.len() && #[trigger] lanes_at(old, to, lanes) implies lanes_at(
        new,
        to,
        lanes,
    ) by {
        assert forall|l: int| 0 <= l < 16 implies #[trigger] lanes[l] == i16_at(
            new,
            to + 2 * l,
        ) by {
            assert(u16_at(new, to + 2 * l) == u16_at(old, to + 2 * l));
        }
    }
}

/// The bytes of a partition that hold nothing are zero.
pub open spec fn partition_slack_is_zero(b: Seq<u8>, at: int) -> bool {
    u32_at(b, at + 12) == 0
}

/// The bytes of a node that hold nothing are zero.
pub open spec fn node_slack_is_zero(b: Seq<u8>, at: int) -> bool {
    b[at + 45] == 0 && b[at + 46] == 0 && b[at + 47] == 0
}

/// Appends a partition.
pub(crate) fn put_partition(out: &mut Vec<u8>, p: &PartitionHeader)
    ensures
        extends(final(out)@, old(out)@, PARTITION_SIZE as int),
        partition_at(final(out)@, old(out)@.len() as int, *p),
        partition_slack_is_zero(final(out)@, old(out)@.len() as int),
{
    let ghost at = out@.len() as int;
    put_u32(out, p.key);
    let ghost b1 = out@;
    put_u32(out, p.root);
    let ghost b2 = out@;
    put_u32(out, p.count);
    let ghost b3 = out@;
    put_u32(out, 0);
    let ghost b4 = out@;
    put_lanes(out, &p.min);
    let ghost b5 = out@;
    put_lanes(out, &p.max);
    proof {
        lemma_extends_keeps(out@, b1, 76, at);
        lemma_extends_keeps(out@, b2, 72, at + 4);
        lemma_extends_keeps(out@, b3, 68, at + 8);
        lemma_extends_keeps(out@, b4, 64, at + 12);
        lemma_extends_keeps(out@, b5, 32, at + 16);
    }
}

/// Appends a node.
pub(crate) fn put_node(out: &mut Vec<u8>, node: &Node)
    ensures
        extends(final(out)@, old(out)@, NODE_SIZE as int),
        node_at(final(out)@, old(out)@.len() as int, *node),
        node_slack_is_zero(final(out)@, old(out)@.len() as int),
{
    let ghost at = out@.len() as int;
    put_lanes(out, &node.vector);
    let ghost b1 = out@;
    put_i32(out, node.radius_sq);
    let ghost b2 = out@;
    put_u32(out, node.left);
    let ghost b3 = out@;
    put_u32(out, node.right);
    let ghost b4 = out@;
    out.push(node.label);
    out.push(0);
    out.push(0);
    out.push(0);
    proof {
        lemma_extends_keeps(out@, b1, 16, at);
        lemma_extends_keeps(out@, b2, 12, at + 32);
        lemma_extends_keeps(out@, b3, 8, at + 36);
        lemma_extends_keeps(out@, b4, 4, at + 40);
    }
}

/// Size in bytes of a file with so many partitions and nodes.
pub open spec fn index_size(n_partitions: int, n_nodes: int) -> int {
    HEADER_SIZE + PARTITION_SIZE * n_partitions + NODE_SIZE * n_nodes
}

/// Where a partition starts in a file.
pub open spec fn partition_start(i: int) -> int {
    HEADER_SIZE + PARTITION_SIZE * i
}

/// Where a node starts in a file with so many partitions.
pub open spec fn node_start(n_partitions: int, i: int) -> int {
    HEADER_SIZE + PARTITION_SIZE * n_partitions + NODE_SIZE * i
}

/// The bytes start with the magic and are as many as the two counts after it
/// call for.
pub open spec fn is_index_file(b: Seq<u8>) -> bool {
    &&& b.len() >= HEADER_SIZE
    &&& b.take(8) == magic()
    &&& b.len() == index_size(u32_at(b, 8), u32_at(b, 12))
}

/// The bytes are an index file with these partitions and nodes.
pub open spec fn holds_index(
    b: Seq<u8>,
    partitions: Seq<PartitionHeader>,
    nodes: Seq<Node>,
) -> bool {
    &&& is_index_file(b)
    &&& partitions.len() == u32_at(b, 8)
    &&& nodes.len() == u32_at(b, 12)
    &&& forall|i: int|
        0 <= i < partitions.len() ==> partition_at(b, partition_start(i), #[trigger] partitions[i])
    &&& forall|i: int|
        0 <= i < nodes.len() ==> node_at(
            b,
            node_start(partitions.len() as int, i),
            #[trigger] nodes[i],
        )
}

/// The bytes of an index file that hold nothing are zero.
pub open spec fn slack_is_zero(b: Seq<u8>, n_partitions: int, n_nodes: int) -> bool {
    &&& forall|i: int|
        0 <= i < n_partitions ==> partition_slack_is_zero(b, #[trigger] partition_start(i))
    &&& forall|i: int|
        0 <= i < n_nodes ==> node_slack_is_zero(b, #[trigger] node_start(n_partitions, i))
}

/// Writes an index file.
pub fn encode(partitions: &[PartitionHeader], nodes: &[Node]) -> (r: Vec<u8>)
    requires
        partitions@.len() <= u32::MAX,
        nodes@.len() <= u32::MAX,
    ensures
        holds_index(r@, partitions@, nodes@),
        slack_is_zero(r@, partitions@.len() as int, nodes@.len() as int),
{
    let mut out: Vec<u8> = vec![82, 78, 83, 80, 83, 67, 84, 49];
    assert(out@ =~= magic());
    let ghost b0 = out@;
    put_u32(&mut out, partitions.len() as u32);
    let ghost b1 = out@;
    put_u32(&mut out, nodes.len() as u32);
    let ghost header = out@;
    proof {
        lemma_extends_keeps(header, b1, 4, 8);
        assert(header.take(8) =~= magic());
    }
    let ghost n_partitions = partitions@.len() as int;
    let mut i: usize = 0;
    while i < partitions.len()
        invariant
            i <= partitions.len(),
            header.len() == HEADER_SIZE,
            extends(out@, header, PARTITION_SIZE * i),
            forall|k: int|
                0 <= k < i ==> partition_at(out@, partition_start(k), #[trigger] partitions@[k]),
            forall|k: int|
                0 <= k < i ==> partition_slack_is_zero(out@, #[trigger] partition_start(k)),
        decreases partitions.len() - i,
    {
        let ghost before = out@;
        put_partition(&mut out, &partitions[i]);
        proof {
            assert forall|k: int| 0 <= k < i implies partition_at(
                out@,
                partition_start(k),
                #[trigger] partitions@[k],
            ) by {
                lemma_extends_keeps(out@, before, PARTITION_SIZE as int, partition_start(k));
            }
            assert forall|k: int| 0 <= k < i implies partition_slack_is_zero(
                out@,
                #[trigger] partition_start(k),
            ) by {
                lemma_extends_keeps(out@, before, PARTITION_SIZE as int, partition_start(k) + 12);
            }
        }
        i = i + 1;
    }
    let ghost table = out@;
    let mut i: usize = 0;
    while i < nodes.len()
        invariant
            i <= nodes.len(),
            n_partitions == partitions@.len(),
            header.len() == HEADER_SIZE,
            extends(table, header, PARTITION_SIZE * n_partitions),
            extends(out@, table, NODE_SIZE * i),
            forall|k: int|
                0 <= k < i ==> node_at(out@, node_start(n_partitions, k), #[trigger] nodes@[k]),
            forall|k: int|
                0 <= k < i ==> node_slack_is_zero(out@, #[trigger] node_start(n_partitions, k)),
        decreases nodes.len() - i,
    {
        let ghost before = out@;
        put_node(&mut out, &nodes[i]);
        proof {
            assert forall|k: int| 0 <= k < i implies node_at(
                out@,
                node_start(n_partitions, k),
                #[trigger] nodes@[k],
            ) by {
                lemma_extends_keeps(out@, before, NODE_SIZE as int, node_start(n_partitions, k));
            }
        }
        i = i + 1;
    }
    proof {
        let n = NODE_SIZE * nodes@.len();
        assert(extends(out@, header, PARTITION_SIZE * n_partitions + n));
        lemma_extends_keeps(out@, header, PARTITION_SIZE * n_partitions + n, 8);
        lemma_extends_keeps(out@, header, PARTITION_SIZE * n_partitions + n, 12);
        assert(out@.take(8) =~= magic());
        assert forall|k: int| 0 <= k < n_partitions implies partition_at(
            out@,
            partition_start(k),
            #[trigger] partitions@[k],
        ) by {
            lemma_extends_keeps(out@, table, n, partition_start(k));
        }
        assert forall|k: int| 0 <= k < n_partitions implies partition_slack_is_zero(
            out@,
            #[trigger] partition_start(k),
        ) by {
            lemma_extends_keeps(out@, table, n, partition_start(k) + 12);
        }
    }
    out
}

/// An index file can be read in one way only: it holds no other partitions or
/// nodes than those it was written from.
pub proof fn law_file_is_unambiguous(
    b: Seq<u8>,
    partitions: Seq<PartitionHeader>,
    nodes: Seq<Node>,
    other_partitions: Seq<PartitionHeader>,
    other_nodes: Seq<Node>,
)
    requires
        holds_index(b, partitions, nodes),
        holds_index(b, other_partitions, other_nodes),
    ensures
        partitions == other_partitions,
        nodes == other_nodes,
{
    assert forall|i: int| 0 <= i < partitions.len() implies partitions[i]
        == other_partitions[i] by {
        let p = partitions[i];
        let q = other_partitions[i];
        assert(p.min@ =~= q.min@);
        assert(p.max@ =~= q.max@);
        assert(p.min =~= q.min);
        assert(p.max =~= q.max);
    }
    assert(partitions =~= other_partitions);
    assert forall|i: int| 0 <= i < nodes.len() implies nodes[i] == other_nodes[i] by {
        let m = nodes[i];
        let n = other_nodes[i];
        assert(m.vector@ =~= n.vector@);
        assert(m.vector =~= n.vector);
    }
    assert(nodes =~= other_nodes);
}

/// Where a record of an index file keeps what, by its bytes, the lowest byte of
/// a number first. A partition holds its key, root and count at 0, 4 and 8, and
/// the lanes of its two corners at 16 and 48; a node holds its lanes at 0, its
/// squared radius, left and right link at 32, 36 and 40, and its label at 44.
/// Negative numbers are in two's complement.
pub proof fn law_file_layout(
    b: Seq<u8>,
    partitions: Seq<PartitionHeader>,
    nodes: Seq<Node>,
    i: int,
    lane: int,
)
    requires
        holds_index(b, partitions, nodes),
        0 <= lane < 16,
    ensures
        partitions.len() == b[8] + 0x100 * b[9] + 0x1_0000 * b[10] + 0x100_0000 * b[11],
        nodes.len() == b[12] + 0x100 * b[13] + 0x1_0000 * b[14] + 0x100_0000 * b[15],
        0 <= i < partitions.len() ==> ({
            let p = partitions[i];
            let at = 16 + 80 * i;
            &&& p.key == b[at] + 0x100 * b[at + 1] + 0x1_0000 * b[at + 2] + 0x100_0000 * b[at + 3]
            &&& p.root == b[at + 4] + 0x100 * b[at + 5] + 0x1_0000 * b[at + 6] + 0x100_0000 * b[at
                + 7]
            &&& p.count == b[at + 8] + 0x100 * b[at + 9] + 0x1_0000 * b[at + 10] + 0x100_0000 * b[at
                + 11]
            &&& (p.min@[lane] - b[at + 16 + 2 * lane] - 0x100 * b[at + 17 + 2 * lane]) % 0x1_0000
                == 0
            &&& (p.max@[lane] - b[at + 48 + 2 * lane] - 0x100 * b[at + 49 + 2 * lane]) % 0x1_0000
                == 0
        }),
        0 <= i < nodes.len() ==> ({
            let node = nodes[i];
            let at = 16 + 80 * partitions.len() + 48 * i;
            &&& (node.vector@[lane] - b[at + 2 * lane] - 0x100 * b[at + 1 + 2 * lane]) % 0x1_0000
                == 0
            &&& (node.radius_sq - b[at + 32] - 0x100 * b[at + 33] - 0x1_0000 * b[at + 34]
                - 0x100_0000 * b[at + 35]) % 0x1_0000_0000 == 0
            &&& node.left == b[at + 36] + 0x100 * b[at + 37] + 0x1_0000 * b[at + 38] + 0x100_0000
                * b[at + 39]
            &&& node.right == b[at + 40] + 0x100 * b[at + 41] + 0x1_0000 * b[at + 42] + 0x100_0000
                * b[at + 43]
            &&& node.label == b[at + 44]
        }),
{
    if 0 <= i < partitions.len() {
        let p = partitions[i];
        let at = partition_start(i);
        assert(partition_at(b, at, p));
        assert(p.min@[lane] == i16_at(b, at + 16 + 2 * lane));
        assert(p.max@[lane] == i16_at(b, at + 48 + 2 * lane));
        assert(i16_at(b, at + 16 + 2 * lane) == u16_at(b, at + 16 + 2 * lane) || i16_at(
            b,
            at + 16 + 2 * lane,
        ) == u16_at(b, at + 16 + 2 * lane) - 0x1_0000);
    }
    if 0 <= i < nodes.len() {
        let node = nodes[i];
        let at = node_start(partitions.len() as int, i);
        assert(node_at(b, at, node));
        assert(node.vector@[lane] == i16_at(b, at + 2 * lane));
    }
}

/// The bytes of a written record that hold nothing: 12 to 15 of a partition and
/// 45 to 47 of a node.
pub proof fn law_slack_by_bytes(b: Seq<u8>, n_partitions: int, n_nodes: int, i: int)
    requires
        slack_is_zero(b, n_partitions, n_nodes),
    ensures
        0 <= i < n_partitions ==> ({
            let at = 16 + 80 * i;
            b[at + 12] == 0 && b[at + 13] == 0 && b[at + 14] == 0 && b[at + 15] == 0
        }),
        0 <= i < n_nodes ==> ({
            let at = 16 + 80 * n_partitions + 48 * i;
            b[at + 45] == 0 && b[at + 46] == 0 && b[at + 47] == 0
        }),
{
    if 0 <= i < n_partitions {
        assert(partition_slack_is_zero(b, partition_start(i)));
    }
    if 0 <= i < n_nodes {
        assert(node_slack_is_zero(b, node_start(n_partitions, i)));
    }
}

}
