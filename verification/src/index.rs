//! The index that the service answers from.

use crate::codec::{
    get_node, get_partition, get_u32, holds_index, index_size, is_index_file, magic, node_at,
    node_start, partition_at, partition_start, u32_at, HEADER_SIZE, NODE_SIZE, PARTITION_SIZE,
};
use crate::layout::{Node, PartitionHeader, NULL};
use crate::tree::walk_ok;
use vstd::prelude::*;

verus! {

/// Why a file is not an index.
#[derive(Clone, Copy, Debug, PartialEq, Eq, Structural)]
pub enum LoadError {
    /// It is shorter than a header.
    TooSmall,
    /// It does not start with the magic.
    BadMagic,
    /// Its size is not what its header calls for.
    SizeMismatch,
}

impl LoadError {
    /// What to tell the user.
    pub fn message(self) -> (r: &'static str)
        ensures
            r@ == match self {
                LoadError::TooSmall => "file too small"@,
                LoadError::BadMagic => "bad magic"@,
                LoadError::SizeMismatch => "file size mismatch"@,
            },
    {
        match self {
            LoadError::TooSmall => "file too small",
            LoadError::BadMagic => "bad magic",
            LoadError::SizeMismatch => "file size mismatch",
        }
    }
}

/// Entry of the lookup table for a key that no partition has.
pub const NO_PARTITION: u16 = u16::MAX;

/// An index: its partitions, the nodes of their trees, and for each key the
/// partition that has it.
pub struct AppState {
    pub partitions: Vec<PartitionHeader>,
    pub nodes: Vec<Node>,
    pub key_to_idx: [u16; 256],
}

/// The last of the partitions whose key ends in these eight bits.
pub open spec fn last_with_key(partitions: Seq<PartitionHeader>, key: int) -> Option<int>
    decreases partitions.len(),
{
    if partitions.len() == 0 {
        None
    } else if partitions.last().key as int % 256 == key {
        Some(partitions.len() - 1)
    } else {
        last_with_key(partitions.drop_last(), key)
    }
}

/// What the lookup table holds for a key: the position of the last partition
/// with that key, in 16 bits.
pub open spec fn table_entry(partitions: Seq<PartitionHeader>, key: int) -> u16 {
    match last_with_key(partitions, key) {
        Some(i) => (i % 0x1_0000) as u16,
        None => NO_PARTITION,
    }
}

impl AppState {
    /// The lookup table is that of the partitions.
    pub open spec fn wf(self) -> bool {
        forall|k: int|
            0 <= k < 256 ==> #[trigger] self.key_to_idx@[k] == table_entry(self.partitions@, k)
    }

    /// No link that a walk from the root of a partition meets leads out of the
    /// nodes, and no such walk goes round.
    pub open spec fn searchable(self) -> bool {
        forall|i: int|
            0 <= i < self.partitions@.len() ==> walk_ok(
                self.nodes@,
                (#[trigger] self.partitions@[i]).root,
            )
    }

    /// Reads an index file.
    pub fn new(bytes: &[u8]) -> (r: Result<Self, LoadError>)
        ensures
            r is Ok <==> is_index_file(bytes@),
            r matches Ok(state) ==> holds_index(bytes@, state.partitions@, state.nodes@)
                && state.wf(),
            r == Err::<Self, LoadError>(LoadError::TooSmall) <==> bytes@.len() < HEADER_SIZE,
            r == Err::<Self, LoadError>(LoadError::BadMagic) <==> bytes@.len() >= HEADER_SIZE
                && bytes@.take(8) != magic(),
            r == Err::<Self, LoadError>(LoadError::SizeMismatch) <==> bytes@.len() >= HEADER_SIZE
                && bytes@.take(8) == magic() && bytes@.len() != index_size(
                u32_at(bytes@, 8),
                u32_at(bytes@, 12),
            ),
    {
        if bytes.len() < HEADER_SIZE {
            return Err(LoadError::TooSmall);
        }
        if !has_magic(bytes) {
            return Err(LoadError::BadMagic);
        }
        let n_partitions: u32 = get_u32(bytes, 8);
        let n_nodes: u32 = get_u32(bytes, 12);
        let size: u64 = HEADER_SIZE as u64 + PARTITION_SIZE as u64 * n_partitions as u64
            + NODE_SIZE as u64 * n_nodes as u64;
        if bytes.len() as u64 != size {
            return Err(LoadError::SizeMismatch);
        }
        let partitions: Vec<PartitionHeader> = read_partitions(bytes, n_partitions as usize);
        let nodes: Vec<Node> = read_nodes(bytes, n_partitions as usize, n_nodes as usize);
        let key_to_idx: [u16; 256] = lookup_table(&partitions);
        Ok(AppState { partitions, nodes, key_to_idx })
    }

    /// The partitions.
    pub fn partitions(&self) -> (r: &[PartitionHeader])
        ensures
            r@ == self.partitions@,
    {
        self.partitions.as_slice()
    }

    /// The nodes.
    pub fn nodes(&self) -> (r: &[Node])
        ensures
            r@ == self.nodes@,
    {
        self.nodes.as_slice()
    }

    /// Checks that a search can follow every link that it may meet.
    pub fn is_searchable(&self) -> (r: bool)
        ensures
            r == self.searchable(),
    {
        let walkable: Vec<bool> = walkable_nodes(&self.nodes);
        let mut i: usize = 0;
        while i < self.partitions.len()
            invariant
                i <= self.partitions@.len(),
                are_walkable(self.nodes@, walkable@),
                forall|k: int|
                    0 <= k < i ==> walk_ok(self.nodes@, (#[trigger] self.partitions@[k]).root),
            decreases self.partitions@.len() - i,
        {
            let root: u32 = self.partitions[i].root;
            if root != NULL && (root as u64 >= walkable.len() as u64
                || !walkable[root as usize]) {
                assert(self.partitions@[i as int].root == root);
                return false;
            }
            i = i + 1;
        }
        true
    }
}

/// For each node that a link can lead to, whether a walk from it meets only
/// links that can be followed.
spec fn are_walkable(nodes: Seq<Node>, walkable: Seq<bool>) -> bool {
    &&& walkable.len() == if nodes.len() < NULL {
        nodes.len()
    } else {
        NULL as nat
    }
    &&& forall|k: int|
        0 <= k < walkable.len() ==> #[trigger] walkable[k] == walk_ok(nodes, k as u32)
}

/// Finds the nodes from which a walk meets only links that can be followed, the
/// last node first.
fn walkable_nodes(nodes: &Vec<Node>) -> (r: Vec<bool>)
    ensures
        are_walkable(nodes@, r@),
{
    let n: usize = if (nodes.len() as u64) < NULL as u64 {
        nodes.len()
    } else {
        NULL as usize
    };
    let mut walkable: Vec<bool> = vec![false; n];
    let mut i: usize = n;
    while i > 0
        invariant
            i <= n <= nodes@.len(),
            n == if nodes@.len() < NULL {
                nodes@.len()
            } else {
                NULL as nat
            },
            walkable@.len() == n,
            forall|k: int| i <= k < n ==> #[trigger] walkable@[k] == walk_ok(nodes@, k as u32),
        decreases i,
    {
        i = i - 1;
        let left: u32 = nodes[i].left;
        let right: u32 = nodes[i].right;
        let left_ok: bool = left == NULL || ((i as u64) < left as u64 && (left as u64) < n as u64
            && walkable[left as usize]);
        let right_ok: bool = right == NULL || ((i as u64) < right as u64 && (right as u64)
            < n as u64 && walkable[right as usize]);
        walkable[i] = left_ok && right_ok;
    }
    walkable
}

/// Whether the bytes start with the magic.
fn has_magic(bytes: &[u8]) -> (r: bool)
    requires
        bytes@.len() >= HEADER_SIZE,
    ensures
        r == (bytes@.take(8) == magic()),
{
    let m: [u8; 8] = [82, 78, 83, 80, 83, 67, 84, 49];
    assert(m@ =~= magic());
    let mut i: usize = 0;
    while i < 8
        invariant
            i <= 8,
            bytes@.len() >= HEADER_SIZE,
            m@ == magic(),
            forall|k: int| 0 <= k < i ==> #[trigger] bytes@[k] == magic()[k],
        decreases 8 - i,
    {
        if bytes[i] != m[i] {
            assert(bytes@.take(8)[i as int] != magic()[i as int]);
            return false;
        }
        i = i + 1;
    }
    assert(bytes@.take(8) =~= magic());
    true
}

/// Reads the partitions of a file.
fn read_partitions(bytes: &[u8], n: usize) -> (r: Vec<PartitionHeader>)
    requires
        partition_start(n as int) <= bytes.len(),
    ensures
        r@.len() == n,
        forall|i: int|
            0 <= i < n ==> partition_at(bytes@, partition_start(i), #[trigger] r@[i]),
{
    let mut r: Vec<PartitionHeader> = Vec::new();
    let mut i: usize = 0;
    while i < n
        invariant
            i <= n,
            partition_start(n as int) <= bytes.len(),
            r@.len() == i,
            forall|k: int|
                0 <= k < i ==> partition_at(bytes@, partition_start(k), #[trigger] r@[k]),
        decreases n - i,
    {
        let p: PartitionHeader = get_partition(bytes, HEADER_SIZE + PARTITION_SIZE * i);
        r.push(p);
        i = i + 1;
    }
    r
}

/// Reads the nodes of a file.
fn read_nodes(bytes: &[u8], n_partitions: usize, n: usize) -> (r: Vec<Node>)
    requires
        node_start(n_partitions as int, n as int) <= bytes.len(),
    ensures
        r@.len() == n,
        forall|i: int|
            0 <= i < n ==> node_at(bytes@, node_start(n_partitions as int, i), #[trigger] r@[i]),
{
    let start: usize = HEADER_SIZE + PARTITION_SIZE * n_partitions;
    let mut r: Vec<Node> = Vec::new();
    let mut i: usize = 0;
    while i < n
        invariant
            i <= n,
            start == HEADER_SIZE + PARTITION_SIZE * n_partitions,
            node_start(n_partitions as int, n as int) <= bytes.len(),
            r@.len() == i,
            forall|k: int|
                0 <= k < i ==> node_at(
                    bytes@,
                    node_start(n_partitions as int, k),
                    #[trigger] r@[k],
                ),
        decreases n - i,
    {
        let node: Node = get_node(bytes, start + NODE_SIZE * i);
        r.push(node);
        i = i + 1;
    }
    r
}

/// The lookup table of the partitions.
fn lookup_table(partitions: &Vec<PartitionHeader>) -> (r: [u16; 256])
    ensures
        forall|k: int| 0 <= k < 256 ==> #[trigger] r@[k] == table_entry(partitions@, k),
{
    let mut table: [u16; 256] = [NO_PARTITION; 256];
    let mut i: usize = 0;
    while i < partitions.len()
        invariant
            i <= partitions@.len(),
            forall|k: int|
                0 <= k < 256 ==> #[trigger] table@[k] == table_entry(
                    partitions@.take(i as int),
                    k,
                ),
        decreases partitions@.len() - i,
    {
        let slot: usize = (partitions[i].key % 256) as usize;
        let ghost before = table@;
        table[slot] = (i % 0x1_0000) as u16;
        proof {
            assert(partitions@.take(i + 1).drop_last() =~= partitions@.take(i as int));
            assert(partitions@.take(i + 1).last() == partitions@[i as int]);
            assert(table@ =~= before.update(slot as int, (i % 0x1_0000) as u16));
        }
        i = i + 1;
    }
    assert(partitions@.take(partitions@.len() as int) =~= partitions@);
    table
}

/// An index file by its bytes: it starts with `RNSPSCT1`, and is as long as the
/// two counts after that call for, 80 bytes for each partition and 48 for each
/// node.
pub proof fn law_index_file_by_bytes(b: Seq<u8>)
    requires
        b.len() >= 16,
    ensures
        is_index_file(b) <==> ({
            let n_partitions = b[8] + 0x100 * b[9] + 0x1_0000 * b[10] + 0x100_0000 * b[11];
            let n_nodes = b[12] + 0x100 * b[13] + 0x1_0000 * b[14] + 0x100_0000 * b[15];
            &&& b[0] as char == 'R' && b[1] as char == 'N' && b[2] as char == 'S' && b[3] as char
                == 'P'
            &&& b[4] as char == 'S' && b[5] as char == 'C' && b[6] as char == 'T' && b[7] as char
                == '1'
            &&& b.len() == 16 + 80 * n_partitions + 48 * n_nodes
        }),
{
    let head = b.take(8);
    assert(forall|i: int| 0 <= i < 8 ==> head[i] == b[i]);
    if head == magic() {
        assert(head[0] == 82 && head[1] == 78 && head[2] == 83 && head[3] == 80 && head[4] == 83
            && head[5] == 67 && head[6] == 84 && head[7] == 49);
    }
    if b[0] == 82 && b[1] == 78 && b[2] == 83 && b[3] == 80 && b[4] == 83 && b[5] == 67 && b[6]
        == 84 && b[7] == 49 {
        assert(head =~= magic());
    }
}

proof fn lemma_last_with_key(partitions: Seq<PartitionHeader>, key: int)
    ensures
        match last_with_key(partitions, key) {
            Some(i) => 0 <= i < partitions.len() && partitions[i].key as int % 256 == key && forall|
                j: int,
            |
                i < j < partitions.len() ==> (#[trigger] partitions[j]).key as int % 256 != key,
            None => forall|j: int|
                0 <= j < partitions.len() ==> (#[trigger] partitions[j]).key as int % 256 != key,
        },
    decreases partitions.len(),
{
    if partitions.len() > 0 && partitions.last().key as int % 256 != key {
        let fewer = partitions.drop_last();
        lemma_last_with_key(fewer, key);
        assert forall|j: int|
            0 <= j < partitions.len() && (last_with_key(fewer, key) matches Some(i) ==> i
                < j) implies (#[trigger] partitions[j]).key as int % 256 != key by {
            if j < fewer.len() {
                assert(fewer[j] == partitions[j]);
            }
        }
    }
}

/// The lookup table leads from a key to the last partition with that key, and
/// says so where there is none.
pub proof fn law_lookup_is_last_with_key(state: AppState, key: u8)
    requires
        state.wf(),
        state.partitions@.len() < 0xffff,
    ensures
        ({
            let at = state.key_to_idx@[key as int];
            &&& at != 0xffff ==> at < state.partitions@.len()
                && state.partitions@[at as int].key as int % 256 == key
            &&& at != 0xffff ==> forall|j: int|
                at < j < state.partitions@.len() ==> (
                #[trigger] state.partitions@[j]).key as int % 256 != key
            &&& at == 0xffff ==> forall|j: int|
                0 <= j < state.partitions@.len() ==> (
                #[trigger] state.partitions@[j]).key as int % 256 != key
        }),
{
    lemma_last_with_key(state.partitions@, key as int);
    assert(state.key_to_idx@[key as int] == table_entry(state.partitions@, key as int));
}

/// An index can be searched exactly where the walk from each root can be
/// followed; one without partitions always can.
pub proof fn law_searchable(state: AppState, i: int)
    ensures
        state.searchable() && 0 <= i < state.partitions@.len() ==> walk_ok(
            state.nodes@,
            state.partitions@[i].root,
        ),
        (forall|k: int|
            0 <= k < state.partitions@.len() ==> walk_ok(
                state.nodes@,
                (#[trigger] state.partitions@[k]).root,
            )) ==> state.searchable(),
{
}

}
