use database::cursor::Cursor;
use database::database::{close, open};
use database::error::{DbError, Field};
use database::node::Node;
use database::pager::Pager;
use database::row::Row;
use database::store::PageStore;
use database::table::Table;

fn reopen(store: &PageStore) -> Table {
    open(PageStore::from_bytes(store.as_bytes().clone()))
}

fn rendered(table: &mut Table) -> Vec<String> {
    table.rows().unwrap().iter().map(|row| row.render()).collect()
}

#[test]
fn a_store_reads_zeros_where_it_has_no_bytes() {
    let store = PageStore::new();
    assert_eq!(store.len(), 0);
    assert_eq!(store.read_page(0), vec![0u8; 4096]);
    assert_eq!(store.read_page(100), vec![0u8; 4096]);
    let short = PageStore::from_bytes(vec![7u8; 10]);
    let page = short.read_page(0);
    assert_eq!(&page[..10], &[7u8; 10]);
    assert!(page[10..].iter().all(|b| *b == 0));
    assert_eq!(short.read_page(1), vec![0u8; 4096]);
}

#[test]
fn a_store_grows_with_zeros_up_to_a_written_page() {
    let mut store = PageStore::from_bytes(vec![7u8; 10]);
    store.write_page(2, &[9u8; 4096]);
    assert_eq!(store.len(), 3 * 4096);
    assert_eq!(store.read_page(2), vec![9u8; 4096]);
    assert_eq!(store.read_page(1), vec![0u8; 4096]);
    let first = store.read_page(0);
    assert_eq!(&first[..10], &[7u8; 10]);
    assert!(first[10..].iter().all(|b| *b == 0));
    store.write_page(0, &[1u8; 4096]);
    assert_eq!(store.len(), 3 * 4096);
    assert_eq!(store.read_page(0), vec![1u8; 4096]);
    assert_eq!(store.read_page(2), vec![9u8; 4096]);
}

#[test]
fn a_pager_counts_whole_pages() {
    assert!(Pager::new(PageStore::new()).empty());
    assert!(Pager::new(PageStore::from_bytes(vec![0u8; 4095])).empty());
    assert!(!Pager::new(PageStore::from_bytes(vec![0u8; 4096])).empty());
}

#[test]
fn a_page_number_above_the_ceiling_is_refused() {
    let mut pager = Pager::new(PageStore::new());
    assert_eq!(pager.get_page(101).err(), Some(DbError::PageOutOfBounds));
    assert_eq!(pager.get_page(usize::MAX).err(), Some(DbError::PageOutOfBounds));
    assert!(pager.empty());
    assert_eq!(pager.get_page(100).map(|page| page.len()), Ok(4096));
    assert!(!pager.empty());
}

#[test]
fn a_page_is_read_once_and_written_through() {
    let mut image = vec![0u8; 2 * 4096];
    image[4096] = 42;
    let mut pager = Pager::new(PageStore::from_bytes(image));
    {
        let page = pager.get_page(1).unwrap();
        assert_eq!(page[0], 42);
        page[1] = 43;
    }
    assert_eq!(pager.get_page(1).unwrap()[1], 43);
    // the store sees nothing before a flush
    assert_eq!(pager.store().read_page(1)[1], 0);
    pager.flush();
    assert_eq!(pager.store().read_page(1)[0], 42);
    assert_eq!(pager.store().read_page(1)[1], 43);
    assert_eq!(pager.store().len(), 2 * 4096);
}

#[test]
fn a_flush_writes_every_cached_page() {
    let mut pager = Pager::new(PageStore::new());
    pager.get_page(3).unwrap()[0] = 3;
    pager.get_page(0).unwrap()[0] = 1;
    pager.get_page(100).unwrap()[4095] = 100;
    pager.flush();
    let store = pager.into_store();
    assert_eq!(store.len(), 101 * 4096);
    assert_eq!(store.as_bytes()[0], 1);
    assert_eq!(store.as_bytes()[3 * 4096], 3);
    assert_eq!(store.as_bytes()[101 * 4096 - 1], 100);
    let touched = store.as_bytes().iter().filter(|b| **b != 0).count();
    assert_eq!(touched, 3);
}

#[test]
fn an_empty_file_is_given_an_empty_leaf() {
    let mut table = open(PageStore::new());
    assert_eq!(table.root_page_num(), 0);
    assert_eq!(table.pager_ref().store().len(), 4096);
    assert_eq!(table.rows().unwrap().len(), 0);
    assert_eq!(table.get_node(0).unwrap().num_cells(), 0);
    let store = close(table);
    assert_eq!(store.as_bytes(), &vec![0u8; 4096]);
}

#[test]
fn a_file_of_zero_pages_is_an_empty_leaf() {
    let mut table = open(PageStore::from_bytes(vec![0u8; 4096]));
    assert_eq!(table.rows().unwrap().len(), 0);
    assert_eq!(table.insert(Row::new(1, "a", "b")), Ok(()));
    assert_eq!(rendered(&mut table), vec!["(1, 'a', 'b')"]);
}

#[test]
fn inserts_and_selects() {
    let mut table = open(PageStore::new());
    assert_eq!(table.insert(Row::new(1, "user", "user@example.com")), Ok(()));
    assert_eq!(rendered(&mut table), vec!["(1, 'user', 'user@example.com')"]);
}

#[test]
fn rows_come_back_in_key_order() {
    let mut table = open(PageStore::new());
    for id in [3u32, 1, 2] {
        assert_eq!(table.insert(Row::new(id, "u", "e")), Ok(()));
    }
    assert_eq!(rendered(&mut table), vec!["(1, 'u', 'e')", "(2, 'u', 'e')", "(3, 'u', 'e')"]);
}

#[test]
fn the_same_id_twice_is_refused() {
    let mut table = open(PageStore::new());
    assert_eq!(table.insert(Row::new(1, "first", "a@x")), Ok(()));
    assert_eq!(table.insert(Row::new(1, "second", "b@x")), Err(DbError::DuplicateKey));
    assert_eq!(rendered(&mut table), vec!["(1, 'first', 'a@x')"]);
}

#[test]
fn a_full_table_refuses_another_row() {
    let mut table = open(PageStore::new());
    let mut expected: Vec<String> = Vec::new();
    for id in 0..12u32 {
        let row = Row::new(id, &"u".repeat(31), &"e".repeat(254));
        expected.push(row.render());
        assert_eq!(table.insert(row), Ok(()));
    }
    assert_eq!(table.insert(Row::new(12, "u", "e")), Err(DbError::TableFull));
    // a full table is named before a present key
    assert_eq!(table.insert(Row::new(3, "u", "e")), Err(DbError::TableFull));
    assert_eq!(table.get_node(0).unwrap().num_cells(), 12);
    assert_eq!(rendered(&mut table), expected);
    // the rows of a full table still fit their page
    let mut back = reopen(&close(table));
    assert_eq!(rendered(&mut back), expected);
    assert_eq!(back.insert(Row::new(12, "u", "e")), Err(DbError::TableFull));
}

#[test]
fn a_row_that_is_too_long_never_reaches_the_page() {
    let mut table = open(PageStore::new());
    assert_eq!(
        table.insert(Row::new(1, &"u".repeat(32), "e")),
        Err(DbError::ValidationFailed { field: Field::Username })
    );
    assert_eq!(
        table.insert(Row::new(1, "u", &"e".repeat(255))),
        Err(DbError::ValidationFailed { field: Field::Email })
    );
    assert_eq!(table.rows().unwrap().len(), 0);
    assert_eq!(table.insert(Row::new(1, "u", "e")), Ok(()));
}

#[test]
fn rows_survive_close_and_reopen() {
    let mut table = open(PageStore::new());
    for id in [40u32, 10, 30, 20] {
        assert_eq!(table.insert(Row::new(id, "user", "user@example.com")), Ok(()));
    }
    let before = rendered(&mut table);
    assert_eq!(before.len(), 4);
    let store = close(table);
    assert_eq!(store.len(), 4096);
    let mut again = reopen(&store);
    assert_eq!(rendered(&mut again), before);
    assert_eq!(again.insert(Row::new(10, "x", "y")), Err(DbError::DuplicateKey));
    assert_eq!(again.insert(Row::new(25, "x", "y")), Ok(()));
    let mut third = reopen(&close(again));
    assert_eq!(
        rendered(&mut third),
        vec![
            "(10, 'user', 'user@example.com')",
            "(20, 'user', 'user@example.com')",
            "(25, 'x', 'y')",
            "(30, 'user', 'user@example.com')",
            "(40, 'user', 'user@example.com')",
        ]
    );
}

#[test]
fn what_was_not_flushed_is_not_in_the_store() {
    let mut table = open(PageStore::new());
    assert_eq!(table.insert(Row::new(1, "u", "e")), Ok(()));
    let mut lost = reopen(table.pager_ref().store());
    assert_eq!(lost.rows().unwrap().len(), 0);
    table.flush();
    let mut kept = reopen(table.pager_ref().store());
    assert_eq!(rendered(&mut kept), vec!["(1, 'u', 'e')"]);
    // the table itself goes on as before
    assert_eq!(rendered(&mut table), vec!["(1, 'u', 'e')"]);
}

#[test]
fn a_root_page_that_does_not_decode_fails_every_operation() {
    let mut image = vec![0u8; 4096];
    image[0] = 9;
    let mut table = open(PageStore::from_bytes(image.clone()));
    assert_eq!(table.insert(Row::new(1, "u", "e")), Err(DbError::DecodeFailure));
    assert_eq!(table.rows().err(), Some(DbError::DecodeFailure));
    assert_eq!(table.get_node(0).err(), Some(DbError::DecodeFailure));
    assert_eq!(table.get_node(101).err(), Some(DbError::PageOutOfBounds));
    assert_eq!(close(table).as_bytes(), &image);
}

fn page_with_cells(cells: &[(u32, Vec<u8>)]) -> Vec<u8> {
    let mut page = vec![0u8; 13];
    page[5] = cells.len() as u8;
    for (key, value) in cells {
        page.extend_from_slice(&key.to_le_bytes());
        page.extend_from_slice(&(value.len() as u64).to_le_bytes());
        page.extend_from_slice(value);
    }
    page.resize(4096, 0);
    page
}

#[test]
fn a_cell_that_does_not_decode_ends_the_walk() {
    let image = page_with_cells(&[
        (1, Row::new(1, "a", "b").encode()),
        (2, vec![0xFF, 0xFF]),
        (3, Row::new(3, "c", "d").encode()),
    ]);
    let mut table = open(PageStore::from_bytes(image));
    assert_eq!(rendered(&mut table), vec!["(1, 'a', 'b')"]);
    let mut cursor = Cursor::start(&mut table).unwrap();
    assert_eq!(cursor.next().map(|row| row.id()), Some(1));
    assert_eq!(cursor.next().map(|row| row.id()), None);
    // the walk is over for good: the cell that failed is not skipped
    assert_eq!(cursor.next().map(|row| row.id()), None);
    assert_eq!(cursor.advance().err(), Some(DbError::DecodeFailure));
    assert_eq!(cursor.is_end(), Ok(false));
    assert_eq!(cursor.value().map(|bytes| bytes.clone()), Ok(vec![0xFF, 0xFF]));
}

#[test]
fn a_cursor_walks_forward_to_the_end() {
    let mut table = open(PageStore::new());
    for id in [2u32, 1] {
        assert_eq!(table.insert(Row::new(id, "u", "e")), Ok(()));
    }
    let mut cursor = table.select().unwrap();
    assert_eq!(cursor.is_end(), Ok(false));
    assert_eq!(cursor.value().map(|bytes| bytes.clone()), Ok(Row::new(1, "u", "e").encode()));
    assert_eq!(cursor.advance().map(|row| row.id()), Ok(1));
    assert_eq!(cursor.value().map(|bytes| bytes.clone()), Ok(Row::new(2, "u", "e").encode()));
    assert_eq!(cursor.next().map(|row| row.id()), Some(2));
    assert_eq!(cursor.is_end(), Ok(true));
    assert_eq!(cursor.value().err(), Some(DbError::Exhausted));
    assert_eq!(cursor.advance().err(), Some(DbError::Exhausted));
    assert_eq!(cursor.next().map(|row| row.id()), None);
    assert_eq!(cursor.is_end(), Ok(true));
}

#[test]
fn a_row_is_rewritten_in_place_through_the_cursor() {
    let mut table = open(PageStore::new());
    assert_eq!(table.insert(Row::new(1, "abc", "e")), Ok(()));
    assert_eq!(table.insert(Row::new(2, "xyz", "e")), Ok(()));
    {
        let mut cursor = table.select().unwrap();
        assert_eq!(cursor.next().map(|row| row.id()), Some(1));
        let bytes = cursor.value().unwrap();
        let fresh = Row::new(2, "XYZ", "f").encode();
        assert_eq!(bytes.len(), fresh.len());
        bytes.copy_from_slice(&fresh);
        assert_eq!(cursor.next().map(|row| row.render()), Some("(2, 'XYZ', 'f')".to_string()));
    }
    assert_eq!(rendered(&mut table), vec!["(1, 'abc', 'e')", "(2, 'XYZ', 'f')"]);
    let mut again = reopen(&close(table));
    assert_eq!(rendered(&mut again), vec!["(1, 'abc', 'e')", "(2, 'XYZ', 'f')"]);
}

#[test]
fn a_cursor_at_the_end_yields_nothing() {
    let mut table = open(PageStore::new());
    assert_eq!(Cursor::end(&mut table).unwrap().is_end(), Ok(true));
    assert_eq!(table.insert(Row::new(1, "u", "e")), Ok(()));
    let mut cursor = Cursor::end(&mut table).unwrap();
    assert_eq!(cursor.is_end(), Ok(true));
    assert_eq!(cursor.next().map(|row| row.id()), None);
    let mut image = vec![0u8; 4096];
    image[0] = 9;
    let mut broken = open(PageStore::from_bytes(image));
    assert_eq!(Cursor::end(&mut broken).err(), Some(DbError::DecodeFailure));
    let mut cursor = Cursor::start(&mut broken).unwrap();
    assert_eq!(cursor.is_end(), Err(DbError::DecodeFailure));
    assert_eq!(cursor.next().map(|row| row.id()), None);
}

#[test]
fn a_table_holds_its_nodes_once_decoded() {
    let mut table = Table::new(Pager::new(PageStore::from_bytes(vec![0u8; 4096])));
    assert_eq!(table.get_node(0).unwrap().num_cells(), 0);
    assert_eq!(table.get_node(0).unwrap().insert(5, Row::new(5, "u", "e")), Ok(()));
    assert_eq!(table.get_node(0).unwrap().num_cells(), 1);
    // another page within the ceiling is an empty leaf of its own
    assert_eq!(table.get_node(7).unwrap().num_cells(), 0);
    table.flush();
    let store = table.into_store();
    assert_eq!(store.len(), 8 * 4096);
    assert_eq!(Node::decode(&store.read_page(0)).unwrap().num_cells(), 1);
    assert_eq!(Node::decode(&store.read_page(7)).unwrap().num_cells(), 0);
}
