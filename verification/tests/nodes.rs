use cstack_db::constants::PAGE_SIZE;
use cstack_db::cursor::Cursor;
use cstack_db::table::{Node, NodeKind, Table, TableError, INVALID_PAGE_NUM, LEAF_NODE_MAX_CELLS};

fn blank() -> Node {
    Node::from_page(vec![0u8; PAGE_SIZE])
}

#[test]
fn a_leaf_node_stores_keys_and_values_in_cells() {
    let mut node = blank();
    node.initialize_leaf_node();
    assert_eq!(node.get_node_type(), NodeKind::Leaf);
    assert!(!node.is_root_node());
    assert_eq!(node.leaf_node_num_cells(), 0);
    node.set_leaf_node_num_cells(2);
    node.set_leaf_node_key(0, 10);
    node.set_leaf_node_key(1, 20);
    node.set_leaf_node_value(1, &[7u8; 291]);
    assert_eq!(node.leaf_node_num_cells(), 2);
    assert_eq!(node.get_leaf_node_key(1), 20);
    assert_eq!(node.get_node_max_key(), 20);
    assert_eq!(node.leaf_node_value(1), vec![7u8; 291]);
    node.copy_leaf_cell(1, 0);
    assert_eq!(node.get_leaf_node_key(0), 20);
    let cell = node.leaf_node_cell(0);
    assert_eq!(&cell[..4], &20u32.to_be_bytes());
    node.set_leaf_node_next_leaf(5);
    assert_eq!(node.get_leaf_node_next_leaf(), 5);
    node.set_node_parent(3);
    assert_eq!(node.get_node_parent(), 3);
    node.set_root_node(true);
    assert!(node.is_root_node());
}

#[test]
fn an_internal_node_keeps_children_and_keys() {
    let mut node = blank();
    node.initialize_internal_node();
    assert_eq!(node.get_node_type(), NodeKind::Internal);
    assert_eq!(node.get_internal_node_num_keys(), 0);
    assert_eq!(node.get_internal_node_right_child() as usize, INVALID_PAGE_NUM);
    assert!(matches!(node.get_internal_node_child(0), Err(TableError::RightChildInvalid(_))));
    node.write_entries(&vec![(4, 10), (5, 20), (6, 30)]);
    assert_eq!(node.get_internal_node_num_keys(), 2);
    assert_eq!(node.get_internal_node_child(0).unwrap(), 4);
    assert_eq!(node.get_internal_node_child(1).unwrap(), 5);
    assert_eq!(node.get_internal_node_child(2).unwrap(), 6);
    assert!(matches!(node.get_internal_node_child(3), Err(TableError::PageOutOfBounds(3, 2))));
    assert_eq!(node.get_internal_node_key(1), 20);
    assert_eq!(node.get_node_max_key(), 20);
    assert_eq!(node.internal_node_find_child(5), 0);
    assert_eq!(node.internal_node_find_child(10), 0);
    assert_eq!(node.internal_node_find_child(11), 1);
    assert_eq!(node.internal_node_find_child(99), 2);
    node.copy_internal_cell(0, 1);
    assert_eq!(node.get_internal_node_key(1), 10);
    assert_eq!(node.get_internal_node_cell(1), node.internal_node_cell(0));
    node.set_internal_node_child(2, 9);
    assert_eq!(node.get_internal_node_right_child(), 9);
    assert_eq!(node.internal_node_right_child(), 9u32.to_be_bytes().to_vec());
    assert_eq!(node.internal_node_child(2), 9u32.to_be_bytes().to_vec());
}

#[test]
fn the_cursor_walks_the_rows_of_a_leaf() {
    let mut table = Table::db_open(&[]).unwrap();
    for id in [2, 4, 6] {
        let row = cstack_db::vm::prepare_insert(&format!("insert {id} u e")).unwrap();
        cstack_db::vm::execute_insert(row, &mut table).unwrap();
    }
    let found = Cursor::table_find(&mut table, 4).unwrap();
    assert_eq!((found.page_num(), found.cell_num()), (0, 1));
    let missing = Cursor::table_find(&mut table, 5).unwrap();
    assert_eq!(missing.cell_num(), 2);
    let past = Cursor::table_find(&mut table, 7).unwrap();
    assert_eq!(past.cell_num(), 3);
    let mut cursor = Cursor::table_start(&mut table).unwrap();
    let mut keys = Vec::new();
    while !cursor.at_end() {
        let value = cursor.cursor_value_mut(&mut table).unwrap();
        keys.push(u32::from_be_bytes([value[0], value[1], value[2], value[3]]));
        cursor.cursor_advance(&mut table).unwrap();
    }
    assert_eq!(keys, vec![2, 4, 6]);
    assert!(LEAF_NODE_MAX_CELLS >= 3);
}

#[test]
fn write_entries_fills_as_many_cells_as_a_page_holds() {
    let mut node = blank();
    node.initialize_internal_node();
    let entries: Vec<(u32, u32)> = (0..511u32).map(|i| (i + 1, 10 * i)).collect();
    node.write_entries(&entries);
    assert_eq!(node.get_internal_node_num_keys(), 510);
    assert_eq!(node.get_internal_node_child(0).unwrap(), 1);
    assert_eq!(node.get_internal_node_key(509), 5090);
    assert_eq!(node.get_internal_node_child(509).unwrap(), 510);
    assert_eq!(node.get_internal_node_right_child(), 511);
}

#[test]
fn the_child_search_bisects_even_unsorted_keys() {
    let mut node = blank();
    node.initialize_internal_node();
    node.write_entries(&vec![(4, 30), (5, 10), (6, 20), (7, 0)]);
    assert_eq!(node.internal_node_find_child(15), 2);
    assert_eq!(node.internal_node_find_child(5), 0);
    assert_eq!(node.internal_node_find_child(25), 3);
}

#[test]
fn an_empty_internal_node_takes_its_first_child_as_right_child() {
    let mut root = blank();
    root.initialize_leaf_node();
    root.set_root_node(true);
    let mut parent = blank();
    parent.initialize_internal_node();
    let mut child = blank();
    child.initialize_leaf_node();
    child.set_leaf_node_num_cells(1);
    child.set_leaf_node_key(0, 42);
    let mut file = root.into_page();
    file.extend(parent.into_page());
    file.extend(child.into_page());
    let mut table = Table::db_open(&file).unwrap();
    table.internal_node_insert(1, 2).unwrap();
    let parent = table.get_node(1).unwrap().unwrap();
    assert_eq!(parent.get_internal_node_num_keys(), 0);
    assert_eq!(parent.get_internal_node_right_child(), 2);
}
