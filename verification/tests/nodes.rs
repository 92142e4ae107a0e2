use database::error::DbError;
use database::node::{Node, Type};
use database::row::Row;

fn keys(node: &Node) -> Vec<u32> {
    (0..node.num_cells()).map(|i| node.cell(i).key()).collect()
}

fn zero_page() -> Vec<u8> {
    vec![0u8; 4096]
}

#[test]
fn a_leaf_starts_without_cells() {
    let node = Node::leaf();
    assert_eq!(node.num_cells(), 0);
    assert_eq!(node.ty(), Type::Leaf);
    assert_eq!(node.parent(), None);
}

#[test]
fn cells_stay_in_ascending_key_order() {
    let mut node = Node::leaf();
    for key in [5u32, 1, 3, 4, 2, 0, u32::MAX] {
        assert_eq!(node.insert(key, Row::new(key, "u", "e")), Ok(()));
    }
    assert_eq!(keys(&node), vec![0, 1, 2, 3, 4, 5, u32::MAX]);
    for i in 0..node.num_cells() {
        let row = Row::decode(node.cell(i).value()).unwrap();
        assert_eq!(row.id(), node.cell(i).key());
    }
}

#[test]
fn a_cell_holds_the_bytes_of_its_row() {
    let mut node = Node::leaf();
    assert_eq!(node.insert(8, Row::new(8, "name", "mail")), Ok(()));
    assert_eq!(node.cell(0).value(), &Row::new(8, "name", "mail").encode());
}

#[test]
fn a_present_key_is_refused_and_nothing_changes() {
    let mut node = Node::leaf();
    assert_eq!(node.insert(2, Row::new(2, "first", "a")), Ok(()));
    assert_eq!(node.insert(4, Row::new(4, "other", "b")), Ok(()));
    let before = node.encode();
    assert_eq!(node.insert(2, Row::new(2, "second", "c")), Err(DbError::DuplicateKey));
    assert_eq!(node.insert(4, Row::new(4, "second", "c")), Err(DbError::DuplicateKey));
    assert_eq!(node.num_cells(), 2);
    assert_eq!(node.encode(), before);
    assert_eq!(Row::decode(node.cell(0).value()).unwrap().username(), "first");
}

#[test]
fn the_bytes_of_a_cell_are_written_in_place() {
    let mut node = Node::leaf();
    assert_eq!(node.insert(1, Row::new(1, "a", "b")), Ok(()));
    assert_eq!(node.insert(2, Row::new(2, "c", "d")), Ok(()));
    let size = node.encode().len();
    let fresh = Row::new(1, "A", "B").encode();
    node.cell_mut(0).copy_from_slice(&fresh);
    assert_eq!(keys(&node), vec![1, 2]);
    assert_eq!(node.cell(0).value(), &fresh);
    assert_eq!(node.cell(1).value(), &Row::new(2, "c", "d").encode());
    assert_eq!(node.encode().len(), size);
}

#[test]
fn a_cell_that_does_not_fit_is_refused() {
    let mut node = Node::leaf();
    let big = "e".repeat(4000);
    assert_eq!(node.insert(1, Row::new(1, "u", &big)), Ok(()));
    let before = node.encode();
    assert!(before.len() <= 4096);
    assert_eq!(node.insert(2, Row::new(2, "u", &big)), Err(DbError::NodeFull));
    assert_eq!(node.num_cells(), 1);
    assert_eq!(node.encode(), before);
    // a present key is named before the lack of room
    assert_eq!(node.insert(1, Row::new(1, "u", &big)), Err(DbError::DuplicateKey));
}

#[test]
fn a_node_is_filled_to_the_last_byte() {
    let mut node = Node::leaf();
    // 13 bytes of header, 12 of cell header, 20 of row header
    let exact = "e".repeat(4096 - 13 - 12 - 20);
    assert_eq!(node.insert(1, Row::new(1, "", &exact)), Ok(()));
    assert_eq!(node.encode().len(), 4096);
    let mut other = Node::leaf();
    let over = "e".repeat(4096 - 13 - 12 - 20 + 1);
    assert_eq!(other.insert(1, Row::new(1, "", &over)), Err(DbError::NodeFull));
}

#[test]
fn an_empty_leaf_is_thirteen_zero_bytes() {
    assert_eq!(Node::leaf().encode(), vec![0u8; 13]);
}

#[test]
fn a_node_is_laid_out_field_by_field() {
    let mut node = Node::leaf();
    assert_eq!(node.insert(258, Row::new(258, "a", "b")), Ok(()));
    let mut expected: Vec<u8> = vec![
        0, 0, 0, 0, // leaf
        0, // no parent
        1, 0, 0, 0, 0, 0, 0, 0, // one cell
        2, 1, 0, 0, // key
        22, 0, 0, 0, 0, 0, 0, 0, // size of the value
    ];
    expected.extend_from_slice(&Row::new(258, "a", "b").encode());
    assert_eq!(node.encode(), expected);
}

#[test]
fn a_page_of_zeros_is_an_empty_leaf() {
    let node = Node::decode(&zero_page()).unwrap();
    assert_eq!(node.num_cells(), 0);
    assert_eq!(node.ty(), Type::Leaf);
    assert_eq!(node.parent(), None);
}

#[test]
fn a_node_round_trips_through_its_page() {
    let mut node = Node::leaf();
    for key in [30u32, 10, 20] {
        assert_eq!(node.insert(key, Row::new(key, "user", "user@example.com")), Ok(()));
    }
    let mut page = vec![0xAAu8; 4096];
    node.write_page(&mut page);
    assert_eq!(page.len(), 4096);
    let used = node.encode().len();
    assert_eq!(&page[..used], &node.encode()[..]);
    assert!(page[used..].iter().all(|b| *b == 0xAA));
    let back = Node::decode(&page).unwrap();
    assert_eq!(keys(&back), vec![10, 20, 30]);
    assert_eq!(back.encode(), node.encode());
}

#[test]
fn decoding_and_encoding_again_reproduces_the_bytes() {
    let mut bytes: Vec<u8> = vec![1, 0, 0, 0]; // root
    bytes.push(1); // has a parent
    bytes.extend_from_slice(&[7, 0, 0, 0, 0, 0, 0, 0]);
    bytes.extend_from_slice(&[2, 0, 0, 0, 0, 0, 0, 0]); // two cells
    bytes.extend_from_slice(&[5, 0, 0, 0, 3, 0, 0, 0, 0, 0, 0, 0, 1, 2, 3]);
    bytes.extend_from_slice(&[9, 0, 0, 0, 0, 0, 0, 0, 0, 0, 0, 0]);
    let mut padded = bytes.clone();
    padded.extend_from_slice(&[0x55; 40]);
    let node = Node::decode(&padded).unwrap();
    assert_eq!(node.ty(), Type::Root);
    assert_eq!(node.parent(), Some(7));
    assert_eq!(keys(&node), vec![5, 9]);
    assert_eq!(node.cell(0).value(), &vec![1u8, 2, 3]);
    assert_eq!(node.cell(1).value(), &Vec::<u8>::new());
    assert_eq!(node.encode(), bytes);
}

#[test]
fn the_three_node_types_have_their_tags() {
    for (tag, ty) in [(0u8, Type::Leaf), (1, Type::Root), (2, Type::Internal)] {
        let mut bytes = vec![0u8; 13];
        bytes[0] = tag;
        assert_eq!(Node::decode(&bytes).unwrap().ty(), ty);
    }
}

#[test]
fn decode_refuses_what_is_no_node() {
    let refused = |bytes: &[u8]| Node::decode(bytes).err() == Some(DbError::DecodeFailure);
    // too short
    assert!(refused(&[]));
    assert!(refused(&[0u8; 12]));
    // unknown type tag
    let mut bad_tag = vec![0u8; 13];
    bad_tag[0] = 3;
    assert!(refused(&bad_tag));
    let mut wide_tag = vec![0u8; 13];
    wide_tag[1] = 1;
    assert!(refused(&wide_tag));
    // unknown parent flag
    let mut bad_flag = vec![0u8; 13];
    bad_flag[4] = 2;
    assert!(refused(&bad_flag));
    // parent announced but cut short
    let mut cut_parent = vec![0u8; 13];
    cut_parent[4] = 1;
    assert!(refused(&cut_parent));
    // more cells announced than there are
    let mut missing = vec![0u8; 13];
    missing[5] = 1;
    assert!(refused(&missing));
    // a value longer than what is left
    let mut long_value = vec![0u8; 13];
    long_value[5] = 1;
    long_value.extend_from_slice(&[1, 0, 0, 0, 4, 0, 0, 0, 0, 0, 0, 0, 1, 2, 3]);
    assert!(refused(&long_value));
    // a count that no page can hold
    let mut huge = vec![0u8; 4096];
    for b in huge[5..13].iter_mut() {
        *b = 0xFF;
    }
    assert!(refused(&huge));
}

#[test]
fn decode_refuses_keys_out_of_order() {
    let cell = |key: u8| vec![key, 0, 0, 0, 0, 0, 0, 0, 0, 0, 0, 0];
    let mut header = vec![0u8; 13];
    header[5] = 2;
    let mut descending = header.clone();
    descending.extend(cell(2));
    descending.extend(cell(1));
    assert_eq!(Node::decode(&descending).err(), Some(DbError::DecodeFailure));
    let mut repeated = header.clone();
    repeated.extend(cell(2));
    repeated.extend(cell(2));
    assert_eq!(Node::decode(&repeated).err(), Some(DbError::DecodeFailure));
    let mut ascending = header.clone();
    ascending.extend(cell(1));
    ascending.extend(cell(2));
    assert_eq!(Node::decode(&ascending).unwrap().num_cells(), 2);
}
