use collab_core::blocks::{Block, BlockEvent, RowChange, RowMetaUpdate};
use collab_core::layout::DatabaseLayout;
use collab_core::rows::{
    get_field_type_from_cell, new_cell_builder, AnyValue, Cell, Cells, CellsUpdate, Row, RowCell,
    RowMeta, CREATED_AT, LAST_MODIFIED,
};
use collab_core::strmap::StrMap;

fn text_cell(s: &str) -> Cell {
    let mut c = new_cell_builder(0);
    c.insert("data".to_string(), AnyValue::Str(s.to_string()));
    c
}

fn row(id: &str) -> Row {
    Row::empty(id.to_string())
}

fn data_of(cell: &Cell) -> String {
    match cell.get(&"data".to_string()) {
        Some(AnyValue::Str(s)) => s.clone(),
        _ => String::new(),
    }
}

fn int_of(cell: &Cell, key: &str) -> i64 {
    match cell.get(&key.to_string()) {
        Some(AnyValue::BigInt(i)) => *i,
        _ => panic!("missing {}", key),
    }
}

#[test]
fn row_cell_update() {
    let mut block = Block::with_capacity(1, 10);
    for id in ["1", "2", "3"] {
        let mut r = row(id);
        for f in ["f1", "f2", "f3"] {
            r.cells = CellsUpdate::new(r.cells, 10).insert_cell(&f.to_string(), text_cell(&format!("{}{}cell", id, f))).into_cells();
        }
        block.create_row(r);
    }
    let cells: Vec<Cell> = ["1", "2", "3"]
        .iter()
        .filter_map(|id| block.get_cell(&id.to_string(), &"f1".to_string()))
        .collect();
    assert_eq!(cells.len(), 3);
    assert_eq!(data_of(&cells[0]), "1f1cell");
    let change = RowChange::Cell { field_id: "f1".to_string(), cell: text_cell("hello world"), now: 20 };
    assert!(block.update_row(&"1".to_string(), change));
    let c = block.get_cell(&"1".to_string(), &"f1".to_string()).unwrap();
    assert_eq!(data_of(&c), "hello world");
    assert_eq!(int_of(&c, CREATED_AT), 10);
    assert_eq!(int_of(&c, LAST_MODIFIED), 20);
}

#[test]
fn cell_write_stamps_times() {
    let cells = Cells::new();
    let up = CellsUpdate::new(cells, 5).insert(&"f".to_string(), text_cell("a"));
    let up = CellsUpdate::new(up.into_cells(), 9).insert(&"f".to_string(), text_cell("b"));
    let cells = up.into_cells();
    let c = cells.cell_for_field_id(&"f".to_string()).unwrap();
    assert_eq!(int_of(c, CREATED_AT), 5);
    assert_eq!(int_of(c, LAST_MODIFIED), 9);
    assert_eq!(data_of(c), "b");
    assert_eq!(get_field_type_from_cell(c), Some(0));
    assert!(cells.cell_for_field_id(&"g".to_string()).is_none());
    assert_eq!(cells.into_inner().len(), 1);
}

#[test]
fn unknown_row_reads_empty_and_fetches_once() {
    let mut block = Block::with_capacity(1, 10);
    let id = "missing".to_string();
    let r = block.get_row(&id);
    assert_eq!(r.id, "missing");
    assert_eq!(r.cells.into_inner().len(), 0);
    assert_eq!(block.queued_len(), 1);
    let _ = block.get_row(&id);
    let _ = block.get_cell(&id, &"f".to_string());
    assert_eq!(block.queued_len(), 1);
    assert!(block.is_fetching(&id));
    let task = block.next_task().unwrap();
    assert_eq!(task.row_ids, vec![id.clone()]);
    assert_eq!(block.queued_len(), 0);
    let _ = block.get_row(&id);
    assert_eq!(block.queued_len(), 0);
    let mut fetched = row("missing");
    fetched.height = 99;
    let BlockEvent::DidFetchRow(rows) = block.did_fetch_rows(vec![fetched]);
    assert_eq!(rows.len(), 1);
    assert!(!block.is_fetching(&id));
    assert_eq!(block.get_row(&id).height, 99);
}

#[test]
fn full_cache_evicts_least_recently_used_row() {
    let mut block = Block::with_capacity(1, 2);
    block.create_row(row("a"));
    block.create_row(row("b"));
    let _ = block.get_row(&"c".to_string());
    let _ = block.get_row(&"a".to_string());
    block.create_row(row("d"));
    assert_eq!(block.cached_len(), 2);
    assert!(block.is_cached(&"a".to_string()));
    assert!(!block.is_cached(&"b".to_string()));
    assert!(block.is_cached(&"d".to_string()));
    assert!(block.is_fetching(&"c".to_string()));
    assert_eq!(block.queued_len(), 1);
    let b = block.get_row(&"b".to_string());
    assert_eq!(b.id, "b");
    assert!(block.is_cached(&"b".to_string()));
    assert_eq!(block.queued_len(), 1);
}

#[test]
fn locally_created_row_wins_over_fetch() {
    let mut block = Block::with_capacity(1, 4);
    let _ = block.get_row(&"r".to_string());
    let mut local = row("r");
    local.height = 7;
    block.create_row(local);
    let mut remote = row("r");
    remote.height = 8;
    let BlockEvent::DidFetchRow(rows) = block.did_fetch_rows(vec![remote]);
    assert!(rows.is_empty());
    assert_eq!(block.get_row(&"r".to_string()).height, 7);
}

#[test]
fn close_delete_update_and_batch() {
    let mut block = Block::with_capacity(1, 4);
    let orders = block.create_rows(vec![row("a"), row("b")]);
    assert_eq!(orders.len(), 2);
    assert_eq!(orders[1].id, "b");
    block.close_rows(&["a".to_string()]);
    assert!(!block.is_cached(&"a".to_string()));
    assert!(!block.update_row(&"a".to_string(), RowChange::Height(3)));
    assert_eq!(block.get_row(&"a".to_string()).height, 60);
    assert!(block.update_row(&"a".to_string(), RowChange::Visibility(false)));
    assert!(!block.get_row(&"a".to_string()).visibility);
    block.delete_row(&"b".to_string());
    assert!(!block.is_cached(&"b".to_string()));
    let _ = block.get_row(&"b".to_string());
    assert!(block.is_fetching(&"b".to_string()));
    block.batch_load_rows(vec!["b".to_string(), "x".to_string(), "y".to_string(), "x".to_string()]);
    assert_eq!(block.queued_len(), 2);
    let _ = block.next_task();
    let t = block.next_task().unwrap();
    assert_eq!(t.row_ids, vec!["x".to_string(), "y".to_string()]);
    block.did_fail_fetch(&["x".to_string()]);
    assert!(!block.is_fetching(&"x".to_string()));
    assert!(block.is_fetching(&"y".to_string()));
    let rows = block.get_rows_from_row_orders(&orders);
    assert_eq!(rows.len(), 2);
}

#[test]
fn row_document_id_is_derived_from_uuid() {
    let block = Block::with_capacity(1, 1);
    let id = "5e2a2d3c-3c1f-4b4e-9a8d-1f2e3d4c5b6a".to_string();
    let a = block.get_row_document_id(&id).unwrap();
    let b = block.get_row_document_id(&id).unwrap();
    assert_eq!(a, b);
    assert_ne!(a, id);
    assert_eq!(a.len(), 36);
    assert!(block.get_row_document_id(&"not a uuid".to_string()).is_none());
}

#[test]
fn small_types() {
    let rc = RowCell::new("r".to_string(), None);
    assert!(rc.cell.is_none());
    let m = RowMeta::empty();
    assert!(m.icon_url.is_none() && m.cover_url.is_none());
    let c: StrMap<AnyValue> = new_cell_builder(3);
    assert_eq!(get_field_type_from_cell(&c), Some(3));
    assert!(DatabaseLayout::Board.is_board());
    assert!(!DatabaseLayout::Grid.is_board());
    assert_eq!(DatabaseLayout::from_i64(2), DatabaseLayout::Calendar);
    assert_eq!(DatabaseLayout::from_i64(9), DatabaseLayout::Grid);
    assert_eq!(DatabaseLayout::Calendar.to_i64(), 2);
    assert_eq!(DatabaseLayout::Board.as_str(), "1");
    assert_eq!(DatabaseLayout::from_name(&"2".to_string()).unwrap(), DatabaseLayout::Calendar);
    assert!(DatabaseLayout::from_name(&"3".to_string()).is_err());
    assert_eq!(DatabaseLayout::default(), DatabaseLayout::Grid);
}

#[test]
fn row_meta_is_stored_under_derived_ids() {
    let id = "5e2a2d3c-3c1f-4b4e-9a8d-1f2e3d4c5b6a".to_string();
    let up = RowMetaUpdate::new(StrMap::new(), id.clone())
        .insert_icon("icon.png")
        .insert_cover_if_not_none(Some("cover.png".to_string()))
        .insert_icon_if_not_none(None);
    assert_eq!(up.map.len(), 2);
    let meta = RowMeta::from_map_ref(&up.map, &id);
    assert_eq!(meta.icon_url.as_deref(), Some("icon.png"));
    assert_eq!(meta.cover_url.as_deref(), Some("cover.png"));
    assert!(up.map.get(&id).is_none());
    let bad = RowMetaUpdate::new(StrMap::new(), "row-1".to_string()).insert_icon("i").insert_cover("c");
    assert_eq!(bad.map.len(), 0);
    let meta = RowMeta::from_map_ref(&up.map, &"row-1".to_string());
    assert!(meta.icon_url.is_none() && meta.cover_url.is_none());
}

#[test]
fn row_meta_of_cached_rows() {
    let mut block = Block::with_capacity(1, 4);
    let m = block.get_row_meta(&"none".to_string());
    assert!(m.icon_url.is_none() && m.cover_url.is_none());
    block.create_row(row("a"));
    assert!(block.update_row_meta(&"a".to_string(), Some("i.png".to_string()), None));
    assert!(block.update_row_meta(&"a".to_string(), None, Some("c.png".to_string())));
    let m = block.get_row_meta(&"a".to_string());
    assert_eq!(m.icon_url.as_deref(), Some("i.png"));
    assert_eq!(m.cover_url.as_deref(), Some("c.png"));
    assert!(!block.update_row_meta(&"zz".to_string(), None, None));
}

#[test]
fn default_block_capacity() {
    let mut block = Block::new(3);
    assert_eq!(block.uid(), 3);
    for i in 0..1001 {
        block.create_row(row(&format!("r{}", i)));
    }
    assert_eq!(block.cached_len(), 1000);
    assert!(!block.is_cached(&"r0".to_string()));
    assert!(block.is_cached(&"r1000".to_string()));
}

#[test]
fn cell_stamps_survive_late_clocks_and_written_created_at() {
    let up = CellsUpdate::new(Cells::new(), 50).insert(&"f".to_string(), text_cell("a"));
    let up = CellsUpdate::new(up.into_cells(), 40).insert(&"f".to_string(), text_cell("b"));
    let mut sneaky = text_cell("c");
    sneaky.insert(CREATED_AT.to_string(), AnyValue::BigInt(1));
    let up = CellsUpdate::new(up.into_cells(), 50).insert(&"f".to_string(), sneaky);
    let cells = up.into_cells();
    let c = cells.cell_for_field_id(&"f".to_string()).unwrap();
    assert_eq!(int_of(c, CREATED_AT), 50);
    assert_eq!(int_of(c, LAST_MODIFIED), 52);
    assert_eq!(data_of(c), "c");
}

#[test]
fn fetched_rows_event_lists_rows_taken_in() {
    let mut block = Block::with_capacity(1, 4);
    block.create_row(row("local"));
    let mut a = row("a");
    a.height = 5;
    let BlockEvent::DidFetchRow(rows) = block.did_fetch_rows(vec![row("local"), a, row("b")]);
    let ids: Vec<String> = rows.iter().map(|r| r.id.clone()).collect();
    assert_eq!(ids, vec!["a".to_string(), "b".to_string()]);
    assert_eq!(block.get_row(&"a".to_string()).height, 5);
    assert!(block.is_cached(&"b".to_string()));
}
