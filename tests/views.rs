use collab_core::layout::{DatabaseLayout, LayoutSettings};
use collab_core::rows::{new_cell_builder, AnyValue};
use collab_core::strmap::StrMap;
use collab_core::rows::RowOrder;
use collab_core::views::{DatabaseView, DatabaseViews, Filter};

fn grid(id: &str) -> DatabaseView {
    DatabaseView {
        id: id.to_string(),
        name: "my first grid".to_string(),
        layout: DatabaseLayout::Grid,
        filters: vec![],
        row_orders: vec![
            RowOrder { id: "1".to_string(), height: 60 },
            RowOrder { id: "2".to_string(), height: 60 },
        ],
        field_orders: vec!["f1".to_string(), "f2".to_string(), "f3".to_string()],
    }
}

fn filter(id: &str) -> Filter {
    Filter { id: id.to_string(), field_id: "f1".to_string(), condition: 0, content: "".to_string() }
}

#[test]
fn view_filters_keep_declared_order() {
    let mut views = DatabaseViews::new();
    views.create_view(grid("v1"));
    assert!(views.insert_filter(&"v1".to_string(), filter("filter1")));
    assert!(views.insert_filter(&"v1".to_string(), filter("filter2")));
    assert!(!views.insert_filter(&"v9".to_string(), filter("filter3")));
    let v = views.get_view(&"v1".to_string()).unwrap();
    assert_eq!(v.filters.len(), 2);
    assert_eq!(v.filters[0].id, "filter1");
    assert_eq!(v.filters[1].id, "filter2");
}

#[test]
fn duplicate_view_keeps_rows_fields_and_layout() {
    let mut views = DatabaseViews::new();
    views.create_view(grid("v1"));
    assert!(views.update_layout(&"v1".to_string(), DatabaseLayout::Board));
    views.insert_filter(&"v1".to_string(), filter("f"));
    assert!(views.duplicate_view(&"v1".to_string(), "v2".to_string()));
    let a = views.get_view(&"v1".to_string()).unwrap();
    let b = views.get_view(&"v2".to_string()).unwrap();
    assert_eq!(b.id, "v2");
    assert_eq!(b.layout, DatabaseLayout::Board);
    assert_eq!(a.row_orders.len(), b.row_orders.len());
    assert_eq!(a.field_orders, b.field_orders);
    assert_eq!(b.filters.len(), 1);
    assert!(!views.duplicate_view(&"nope".to_string(), "v3".to_string()));
    assert!(views.get_view(&"v3".to_string()).is_none());
}

#[test]
fn layout_settings_keep_only_layout_keys() {
    let mut map = StrMap::new();
    let mut board = new_cell_builder(1);
    board.insert("abc".to_string(), AnyValue::Str("123".to_string()));
    map.insert("1".to_string(), board);
    map.insert("x".to_string(), new_cell_builder(0));
    map.insert("2".to_string(), new_cell_builder(2));
    let settings = LayoutSettings::from_map_ref(&map).into_inner();
    assert_eq!(settings.len(), 2);
    assert!(settings.get(&"x".to_string()).is_none());
    match settings.get(&"1".to_string()).unwrap().get(&"abc".to_string()) {
        Some(AnyValue::Str(s)) => assert_eq!(s, "123"),
        _ => panic!("missing setting"),
    }
    assert_eq!(LayoutSettings::new().into_inner().len(), 0);
}
