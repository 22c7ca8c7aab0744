use rinha::codec::encode;
use rinha::index::{AppState, LoadError, NO_PARTITION};
use rinha::layout::{Node, PartitionHeader, NULL};

fn partition(key: u32, root: u32) -> PartitionHeader {
    PartitionHeader { key, root, count: 1, min: [0; 16], max: [0; 16] }
}

fn leaf(label: u8) -> Node {
    Node { vector: [0; 16], radius_sq: 0, left: NULL, right: NULL, label }
}

fn error_of(bytes: &[u8]) -> Option<LoadError> {
    match AppState::new(bytes) {
        Ok(_) => None,
        Err(e) => Some(e),
    }
}

#[test]
fn empty_index_is_a_header() {
    let bytes = encode(&[], &[]);
    assert_eq!(bytes, b"RNSPSCT1\0\0\0\0\0\0\0\0");
    let state = match AppState::new(&bytes) {
        Ok(state) => state,
        Err(_) => panic!("an empty index is an index"),
    };
    assert_eq!(state.partitions().len(), 0);
    assert_eq!(state.nodes().len(), 0);
    assert_eq!(state.key_to_idx, [NO_PARTITION; 256]);
    assert!(state.is_searchable());
}

#[test]
fn bytes_of_a_node() {
    let mut node = leaf(7);
    node.vector[0] = 0x1234;
    node.vector[1] = -2;
    node.radius_sq = 0x0102_0304;
    node.left = 0xa1b2_c3d4;
    let bytes = encode(&[], &[node]);
    assert_eq!(bytes.len(), 64);
    assert_eq!(&bytes[12..16], &[1, 0, 0, 0]);
    assert_eq!(&bytes[16..22], &[0x34, 0x12, 0xfe, 0xff, 0, 0]);
    assert_eq!(&bytes[48..52], &[4, 3, 2, 1]);
    assert_eq!(&bytes[52..56], &[0xd4, 0xc3, 0xb2, 0xa1]);
    assert_eq!(&bytes[56..60], &[0xff; 4]);
    assert_eq!(&bytes[60..64], &[7, 0, 0, 0]);
}

#[test]
fn bytes_of_a_partition() {
    let mut p = partition(0x0102_0304, 5);
    p.count = 9;
    p.min[0] = i16::MIN;
    p.max[15] = 1;
    let bytes = encode(&[p], &[]);
    assert_eq!(bytes.len(), 96);
    assert_eq!(&bytes[8..12], &[1, 0, 0, 0]);
    assert_eq!(&bytes[16..32], &[4, 3, 2, 1, 5, 0, 0, 0, 9, 0, 0, 0, 0, 0, 0, 0]);
    assert_eq!(&bytes[32..34], &[0, 0x80]);
    assert_eq!(&bytes[94..96], &[1, 0]);
}

#[test]
fn file_reads_back() {
    let mut node = leaf(1);
    node.vector = [-5; 16];
    node.radius_sq = -77;
    node.right = 1;
    let mut p = partition(200, 0);
    p.min = [-32768; 16];
    p.max = [32767; 16];
    p.count = 2;
    let bytes = encode(&[p, partition(3, NULL)], &[node, leaf(0)]);
    let state = match AppState::new(&bytes) {
        Ok(state) => state,
        Err(_) => panic!("what was written is an index"),
    };
    assert_eq!(state.partitions().len(), 2);
    assert_eq!(state.partitions()[0].key, 200);
    assert_eq!(state.partitions()[0].root, 0);
    assert_eq!(state.partitions()[0].count, 2);
    assert_eq!(state.partitions()[0].min, [-32768; 16]);
    assert_eq!(state.partitions()[0].max, [32767; 16]);
    assert_eq!(state.partitions()[1].root, NULL);
    assert_eq!(state.nodes().len(), 2);
    assert_eq!(state.nodes()[0].vector, [-5; 16]);
    assert_eq!(state.nodes()[0].radius_sq, -77);
    assert_eq!(state.nodes()[0].left, NULL);
    assert_eq!(state.nodes()[0].right, 1);
    assert_eq!(state.nodes()[0].label, 1);
    assert_eq!(state.nodes()[1].label, 0);
    assert_eq!(state.key_to_idx[200], 0);
    assert_eq!(state.key_to_idx[3], 1);
    assert_eq!(state.key_to_idx[0], NO_PARTITION);
}

#[test]
fn slack_bytes_are_not_read() {
    let mut bytes = encode(&[partition(1, 0)], &[leaf(1)]);
    bytes[28] = 0xff;
    let last = bytes.len() - 1;
    bytes[last] = 0xff;
    assert_eq!(error_of(&bytes), None);
}

#[test]
fn short_file_is_refused() {
    assert_eq!(error_of(&[]), Some(LoadError::TooSmall));
    assert_eq!(error_of(b"RNSPSCT1\0\0\0\0\0\0\0"), Some(LoadError::TooSmall));
    assert_eq!(LoadError::TooSmall.message(), "file too small");
}

#[test]
fn other_magic_is_refused() {
    assert_eq!(error_of(b"RNSPSCT2\0\0\0\0\0\0\0\0"), Some(LoadError::BadMagic));
    assert_eq!(error_of(b"XNSPSCT1\0\0\0\0\0\0\0\0"), Some(LoadError::BadMagic));
    assert_eq!(LoadError::BadMagic.message(), "bad magic");
}

#[test]
fn other_size_is_refused() {
    let mut bytes = encode(&[partition(1, 0)], &[leaf(1)]);
    bytes.push(0);
    assert_eq!(error_of(&bytes), Some(LoadError::SizeMismatch));
    bytes.pop();
    assert_eq!(error_of(&bytes), None);
    bytes.pop();
    assert_eq!(error_of(&bytes), Some(LoadError::SizeMismatch));
    assert_eq!(LoadError::SizeMismatch.message(), "file size mismatch");
    let mut header = b"RNSPSCT1".to_vec();
    header.extend_from_slice(&[0xff; 8]);
    assert_eq!(error_of(&header), Some(LoadError::SizeMismatch));
}

#[test]
fn last_partition_with_a_key_is_looked_up() {
    let bytes = encode(&[partition(4, NULL), partition(5, NULL), partition(256 + 4, NULL)], &[]);
    match AppState::new(&bytes) {
        Ok(state) => {
            assert_eq!(state.key_to_idx[4], 2);
            assert_eq!(state.key_to_idx[5], 1);
        }
        Err(_) => panic!("an index"),
    }
}

#[test]
fn stray_links_are_found() {
    let state = |partitions: Vec<PartitionHeader>, nodes: Vec<Node>| AppState {
        partitions,
        nodes,
        key_to_idx: [NO_PARTITION; 256],
    };
    let mut up = leaf(0);
    up.left = 0;
    assert!(!state(vec![partition(0, 0)], vec![up]).is_searchable());
    let mut out = leaf(0);
    out.right = 2;
    assert!(!state(vec![partition(0, 0)], vec![out, leaf(0)]).is_searchable());
    let mut on = leaf(0);
    on.right = 1;
    assert!(state(vec![partition(0, 0)], vec![on, leaf(0)]).is_searchable());
    assert!(!state(vec![partition(0, 0)], vec![on, up]).is_searchable());
    assert!(!state(vec![partition(0, 1)], vec![leaf(0)]).is_searchable());
    assert!(state(vec![partition(0, 0), partition(1, NULL)], vec![leaf(0)]).is_searchable());
}

#[test]
fn links_that_no_search_meets_may_stray() {
    let mut stray = leaf(0);
    stray.left = 0;
    stray.right = 77;
    let state = AppState {
        partitions: vec![partition(0, 0), partition(1, NULL)],
        nodes: vec![leaf(0), stray],
        key_to_idx: [NO_PARTITION; 256],
    };
    assert!(state.is_searchable());
}
