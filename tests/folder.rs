use collab_core::folder::{to_workspace_with_txn, Folder, FolderView, LegacyValue};
use collab_core::rows::AnyValue;
use collab_core::strmap::StrMap;

fn view(id: &str, parent: &str) -> FolderView {
    FolderView { id: id.to_string(), parent_view_id: parent.to_string(), name: id.to_string(), created_at: 0 }
}

fn empty_folder() -> Folder {
    Folder { views: StrMap::new(), relations: StrMap::new(), favorites_v1: None, workspaces: None }
}

#[test]
fn move_nested_view_to_workspace() {
    let mut f = empty_folder();
    f.insert_view(view("w1", ""), None);
    f.insert_view(view("v1", "w1"), None);
    f.insert_view(view("v2", "w1"), None);
    f.insert_view(view("v1_1", "v1"), None);
    f.move_nested_view(&"v1_1".to_string(), &"w1".to_string(), Some("v1".to_string())).unwrap();
    assert_eq!(f.get_children(&"w1".to_string()), vec!["v1".to_string(), "v1_1".to_string(), "v2".to_string()]);
    assert!(f.get_children(&"v1".to_string()).is_empty());
    assert_eq!(f.views.get(&"v1_1".to_string()).unwrap().parent_view_id, "w1");
    assert!(f.move_nested_view(&"nope".to_string(), &"w1".to_string(), None).is_none());
}

#[test]
fn insert_view_at_index() {
    let mut f = empty_folder();
    f.insert_view(view("w", ""), None);
    f.insert_view(view("a", "w"), None);
    f.insert_view(view("b", "w"), Some(0));
    f.insert_view(view("c", "w"), Some(100));
    assert_eq!(f.get_children(&"w".to_string()), vec!["b".to_string(), "a".to_string(), "c".to_string()]);
}

#[test]
fn legacy_favorites_are_read() {
    let mut f = empty_folder();
    assert!(f.get_favorite_v1().is_empty());
    f.favorites_v1 = Some(vec![
        LegacyValue::Any("{\"id\":\"v1\"}".to_string()),
        LegacyValue::Other,
        LegacyValue::Any("[1]".to_string()),
        LegacyValue::Any("{\"id\":\"v2\"}".to_string()),
    ]);
    let ids: Vec<String> = f.get_favorite_v1().into_iter().map(|f| f.id).collect();
    assert_eq!(ids, vec!["v1".to_string(), "v2".to_string()]);
}

fn workspace(id: Option<&str>, name: &str) -> StrMap<AnyValue> {
    let mut m = StrMap::new();
    if let Some(id) = id {
        m.insert("id".to_string(), AnyValue::Str(id.to_string()));
    }
    m.insert("name".to_string(), AnyValue::Str(name.to_string()));
    m.insert("created_at".to_string(), AnyValue::BigInt(42));
    m
}

#[test]
fn migration_folds_last_workspace_into_views() {
    let mut f = empty_folder();
    assert!(f.migrate_workspace_to_view().is_none());
    f.relations.insert("w2".to_string(), vec!["x".to_string()]);
    f.workspaces = Some(vec![workspace(Some("w1"), "one"), workspace(Some("w2"), "two"), workspace(None, "bad")]);
    assert!(f.migrate_workspace_to_view().is_some());
    let v = f.views.get(&"w2".to_string()).unwrap();
    assert_eq!(v.name, "two");
    assert_eq!(v.created_at, 42);
    assert_eq!(v.parent_view_id, "");
    assert!(f.views.get(&"w1".to_string()).is_none());
    assert_eq!(f.get_children(&"w2".to_string()), vec!["x".to_string()]);
    assert!(f.workspaces.is_some());
    let w = to_workspace_with_txn(&workspace(Some("w9"), "n"), &f.relations).unwrap();
    assert_eq!(w.id, "w9");
    assert!(w.child_views.is_empty());
    assert!(to_workspace_with_txn(&workspace(None, "n"), &f.relations).is_none());
}
