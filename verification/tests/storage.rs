use cstack_db::constants::{PAGE_SIZE, ROWS_PER_PAGE, ROW_SIZE, TABLE_MAX_ROWS};
use cstack_db::errors::ExecuteError;
use cstack_db::row::Row;
use cstack_db::table::{
    PagerError, Table, TableError, TreeLine, COMMON_NODE_HEADER_SIZE, LEAF_NODE_CELL_SIZE,
    LEAF_NODE_HEADER_SIZE, LEAF_NODE_MAX_CELLS, LEAF_NODE_SPACE_FOR_CELLS,
};
use cstack_db::vm::{execute_insert, execute_select, execute_statement, prepare_insert, prepare_statement};

fn row(id: u32) -> Row {
    prepare_insert(&format!("insert {id} user{id} person{id}@example.com")).unwrap()
}

fn fresh() -> Table {
    Table::db_open(&[]).unwrap()
}

fn ids(rows: &[Row]) -> Vec<u32> {
    rows.iter().map(|r| r.id).collect()
}

/// The file that the writes of a flush leave behind.
fn file_after(writes: &[(usize, Vec<u8>)]) -> Vec<u8> {
    let len = writes.iter().map(|(p, _)| (p + 1) * PAGE_SIZE).max().unwrap_or(0);
    let mut file = vec![0u8; len];
    for (p, bytes) in writes {
        file[p * PAGE_SIZE..(p + 1) * PAGE_SIZE].copy_from_slice(bytes);
    }
    file
}

#[test]
fn an_empty_file_opens_as_an_empty_root_leaf() {
    let mut table = fresh();
    assert_eq!(table.num_pages(), 1);
    assert_eq!(table.root_page_num(), 0);
    assert!(table.is_empty());
    assert!(table.is_well_formed());
    assert!(execute_select(&mut table).unwrap().is_empty());
}

#[test]
fn a_file_that_is_not_whole_pages_is_refused() {
    assert!(matches!(Table::db_open(&[0u8; 10]), Err(TableError::PagerError(PagerError::PartialPageSize))));
}

#[test]
fn inserted_rows_are_selected_in_key_order() {
    let mut table = fresh();
    for id in [3, 1, 2] {
        execute_insert(row(id), &mut table).unwrap();
    }
    let rows = execute_select(&mut table).unwrap();
    assert_eq!(ids(&rows), vec![1, 2, 3]);
    assert_eq!(rows[0].username.as_bytes()[..5], *b"user1");
    assert!(table.is_well_formed());
}

#[test]
fn a_duplicate_key_is_refused_and_changes_nothing() {
    let mut table = fresh();
    execute_insert(row(1), &mut table).unwrap();
    execute_insert(row(2), &mut table).unwrap();
    let before = table.get_page(0).unwrap().unwrap();
    assert!(matches!(execute_insert(row(1), &mut table), Err(ExecuteError::DuplicateKey)));
    assert_eq!(table.get_page(0).unwrap().unwrap(), before);
    assert_eq!(ids(&execute_select(&mut table).unwrap()), vec![1, 2]);
}

#[test]
fn a_one_node_tree_prints_as_one_leaf() {
    let mut table = fresh();
    for id in [3, 1, 2] {
        execute_insert(row(id), &mut table).unwrap();
    }
    let lines = table.print_tree(0, 0).unwrap();
    assert_eq!(
        lines,
        vec![
            TreeLine::Leaf { level: 0, size: 3 },
            TreeLine::Cell { level: 1, key: 1 },
            TreeLine::Cell { level: 1, key: 2 },
            TreeLine::Cell { level: 1, key: 3 },
        ]
    );
}

#[test]
fn a_full_root_leaf_splits_into_two_leaves_under_a_new_root() {
    let mut table = fresh();
    for id in 1..=14 {
        execute_insert(row(id), &mut table).unwrap();
    }
    let mut expected = vec![TreeLine::Internal { level: 0, size: 1 }, TreeLine::Leaf { level: 1, size: 7 }];
    for k in 1..=7 {
        expected.push(TreeLine::Cell { level: 2, key: k });
    }
    expected.push(TreeLine::Key { level: 1, key: 7 });
    expected.push(TreeLine::Leaf { level: 1, size: 7 });
    for k in 8..=14 {
        expected.push(TreeLine::Cell { level: 2, key: k });
    }
    assert_eq!(table.print_tree(0, 0).unwrap(), expected);
    assert_eq!(table.num_pages(), 3);
    assert!(table.is_well_formed());
    assert_eq!(ids(&execute_select(&mut table).unwrap()), (1..=14).collect::<Vec<u32>>());
}

#[test]
fn rows_in_a_multi_level_tree_are_all_selected() {
    let mut table = fresh();
    for id in 1..=15 {
        execute_insert(row(id), &mut table).unwrap();
    }
    assert_eq!(ids(&execute_select(&mut table).unwrap()), (1..=15).collect::<Vec<u32>>());
}

#[test]
fn many_ascending_rows_split_internal_nodes_and_stay_readable() {
    let mut table = fresh();
    for id in 1..=60 {
        execute_insert(row(id), &mut table).unwrap();
        assert!(table.is_well_formed());
    }
    assert_eq!(ids(&execute_select(&mut table).unwrap()), (1..=60).collect::<Vec<u32>>());
    match table.print_tree(0, 0).unwrap()[0] {
        TreeLine::Internal { level: 0, .. } => {}
        ref other => panic!("unexpected root line {other:?}"),
    }
}

#[test]
fn the_table_fills_up_with_an_out_of_pages_error() {
    let mut table = fresh();
    let mut err = None;
    for id in 1..=2000 {
        if let Err(e) = execute_insert(row(id), &mut table) {
            err = Some(e);
            break;
        }
    }
    let e = err.expect("the table should fill up");
    assert!(matches!(
        e,
        ExecuteError::CursorError(cstack_db::cursor::CursorError::TableError(TableError::PagerError(PagerError::OutOfBounds(100))))
    ));
    assert!(e.is_fatal());
}

#[test]
fn a_flushed_table_reopens_with_the_same_rows() {
    let mut table = fresh();
    for id in [5, 3, 9, 1] {
        execute_insert(row(id), &mut table).unwrap();
    }
    let writes = table.flush_all().unwrap();
    assert_eq!(writes.len(), 1);
    assert_eq!(writes[0].0, 0);
    let file = file_after(&writes);
    let mut reopened = Table::db_open(&file).unwrap();
    assert_eq!(reopened.num_pages(), 1);
    assert!(reopened.is_well_formed());
    assert_eq!(ids(&execute_select(&mut reopened).unwrap()), vec![1, 3, 5, 9]);
}

#[test]
fn a_flushed_multi_page_table_reopens_with_the_same_rows() {
    let mut table = fresh();
    for id in (1..=30).rev() {
        execute_insert(row(id), &mut table).unwrap();
    }
    let writes = table.flush_all().unwrap();
    let pages: Vec<usize> = writes.iter().map(|(p, _)| *p).collect();
    assert_eq!(pages, (0..table.num_pages()).collect::<Vec<usize>>());
    let mut reopened = Table::db_open(&file_after(&writes)).unwrap();
    assert!(reopened.is_well_formed());
    assert_eq!(ids(&execute_select(&mut reopened).unwrap()), (1..=30).collect::<Vec<u32>>());
}

#[test]
fn statements_run_through_execute_statement() {
    let mut table = fresh();
    let insert = prepare_statement("insert 1 user1 person1@example.com").unwrap();
    assert!(execute_statement(insert, &mut table).unwrap().is_empty());
    let select = prepare_statement("select").unwrap();
    let rows = execute_statement(select, &mut table).unwrap();
    assert_eq!(ids(&rows), vec![1]);
    let again = prepare_statement("insert 1 user1 person1@example.com").unwrap();
    assert!(matches!(execute_statement(again, &mut table), Err(ExecuteError::DuplicateKey)));
}

#[test]
fn a_duplicate_in_a_full_leaf_is_refused_before_any_split() {
    let mut table = fresh();
    for id in 1..=13 {
        execute_insert(row(id), &mut table).unwrap();
    }
    let before = table.print_tree(0, 0).unwrap();
    assert!(matches!(execute_insert(row(5), &mut table), Err(ExecuteError::DuplicateKey)));
    assert_eq!(table.print_tree(0, 0).unwrap(), before);
    assert_eq!(ids(&execute_select(&mut table).unwrap()), (1..=13).collect::<Vec<u32>>());
}

#[test]
fn the_constants_follow_the_layout() {
    assert_eq!(ROW_SIZE, 291);
    assert_eq!(COMMON_NODE_HEADER_SIZE, 6);
    assert_eq!(LEAF_NODE_HEADER_SIZE, 14);
    assert_eq!(LEAF_NODE_CELL_SIZE, 295);
    assert_eq!(LEAF_NODE_SPACE_FOR_CELLS, 4082);
    assert_eq!(LEAF_NODE_MAX_CELLS, 13);
    assert_eq!(ROWS_PER_PAGE, 14);
    assert_eq!(TABLE_MAX_ROWS, 1400);
}

#[test]
fn pages_not_brought_in_are_not_given_out() {
    let mut table = fresh();
    assert!(table.get_page(1).unwrap().is_none());
    assert!(matches!(table.get_page(100), Err(TableError::PagerError(PagerError::OutOfBounds(100)))));
    assert_eq!(table.get_page_mut(1).unwrap(), vec![0u8; PAGE_SIZE]);
    assert_eq!(table.num_pages(), 2);
    assert!(table.get_page(1).unwrap().is_some());
    assert_eq!(table.get_unused_page_num(), 2);
}

#[test]
fn a_reopened_file_holds_its_pages() {
    let mut file = vec![0u8; 2 * PAGE_SIZE];
    file[PAGE_SIZE + 7] = 9;
    let mut table = Table::db_open(&file).unwrap();
    assert_eq!(table.num_pages(), 2);
    assert!(table.get_page(1).unwrap().is_none());
    let page = table.get_page_mut(1).unwrap();
    assert_eq!(page[7], 9);
    assert_eq!(page.len(), PAGE_SIZE);
}

#[test]
fn every_inserted_row_stays_reachable_from_the_root() {
    let mut table = fresh();
    let order: Vec<u32> = (0..60u32).map(|i| (i * 37) % 61 + 1).collect();
    for id in &order {
        execute_insert(row(*id), &mut table).unwrap();
    }
    let mut keys: Vec<u32> = table
        .print_tree(0, 0)
        .unwrap()
        .iter()
        .filter_map(|line| match line {
            TreeLine::Cell { key, .. } => Some(*key),
            _ => None,
        })
        .collect();
    keys.sort();
    let mut expected = order.clone();
    expected.sort();
    assert_eq!(keys, expected);
}

#[test]
fn a_split_leaf_under_the_root_gets_its_new_largest_key_in_the_parent() {
    let mut table = fresh();
    for id in 1..=21 {
        execute_insert(row(id), &mut table).unwrap();
    }
    let mut expected = vec![TreeLine::Internal { level: 0, size: 2 }];
    for (first, last) in [(1u32, 7u32), (8, 14), (15, 21)] {
        expected.push(TreeLine::Leaf { level: 1, size: 7 });
        for k in first..=last {
            expected.push(TreeLine::Cell { level: 2, key: k });
        }
        if last != 21 {
            expected.push(TreeLine::Key { level: 1, key: last });
        }
    }
    assert_eq!(table.print_tree(0, 0).unwrap(), expected);
}

#[test]
fn a_split_root_internal_node_keeps_its_root_flag() {
    let mut table = fresh();
    for id in 1..=40 {
        execute_insert(row(id), &mut table).unwrap();
    }
    let lines = table.print_tree(0, 0).unwrap();
    assert!(matches!(lines[0], TreeLine::Internal { level: 0, size: 1 }));
    assert!(matches!(lines[1], TreeLine::Internal { level: 1, .. }));
    assert!(table.get_node(0).unwrap().unwrap().is_root_node());
    assert!(table.is_well_formed());
    assert_eq!(ids(&execute_select(&mut table).unwrap()), (1..=40).collect::<Vec<u32>>());
}

#[test]
fn scrambled_rows_under_one_internal_root_are_selected_and_found_by_id() {
    let mut table = fresh();
    let order: Vec<u32> = (1..=25).map(|i| (i * 7) % 26).collect();
    for &id in &order {
        execute_insert(row(id), &mut table).unwrap();
    }
    let lines = table.print_tree(0, 0).unwrap();
    assert!(matches!(lines[0], TreeLine::Internal { level: 0, .. }));
    assert!(table.num_pages() <= 4);
    assert_eq!(ids(&execute_select(&mut table).unwrap()), (1..=25).collect::<Vec<u32>>());
    for id in 1..=25u32 {
        let cursor = cstack_db::cursor::Cursor::table_find(&mut table, id).unwrap();
        let value = cursor.cursor_value_mut(&mut table).unwrap();
        assert_eq!(u32::from_be_bytes([value[0], value[1], value[2], value[3]]), id);
    }
}

#[test]
fn a_fresh_table_keeps_every_row_in_order_through_leaf_splits() {
    let mut table = fresh();
    let order = [40u32, 3, 27, 11, 35, 8, 19, 1, 44, 23, 15, 30, 6, 38, 13, 25, 2, 33, 17, 9, 42, 21, 29, 5, 36, 12, 46, 31];
    for (n, &id) in order.iter().enumerate() {
        execute_insert(row(id), &mut table).unwrap();
        let mut expected: Vec<u32> = order[..=n].to_vec();
        expected.sort();
        assert_eq!(ids(&execute_select(&mut table).unwrap()), expected);
    }
}

#[test]
fn a_cell_past_the_last_is_written_where_it_stands() {
    let mut table = fresh();
    execute_insert(row(1), &mut table).unwrap();
    execute_insert(row(2), &mut table).unwrap();
    table.leaf_node_insert(0, 5, 9, &row(9)).unwrap();
    let node = table.get_node_mut(0).unwrap();
    assert_eq!(node.leaf_node_num_cells(), 3);
    assert_eq!(node.get_leaf_node_key(0), 1);
    assert_eq!(node.get_leaf_node_key(1), 2);
    assert_eq!(node.get_leaf_node_key(5), 9);
}
