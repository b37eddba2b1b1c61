use collab_core::document::{
    Block, BlockAction, BlockActionPayload, BlockActionType, Document, DocumentData,
    DocumentError, DocumentMeta,
};
use collab_core::strmap::StrMap;

fn block(id: &str, parent: &str) -> Block {
    Block {
        id: id.to_string(),
        ty: "paragraph".to_string(),
        parent: parent.to_string(),
        children: format!("{}_children", id),
        external_id: None,
        external_type: None,
        data: "{}".to_string(),
    }
}

fn children(doc: &Document, id: &str) -> Vec<String> {
    let data = doc.get_document_data().unwrap();
    let key = format!("{}_children", id);
    match data.meta.children_map.get(&key) {
        Some(v) => v.clone(),
        None => vec![],
    }
}

/// page -> B1 -> C1, page -> B2.
fn sample() -> Document {
    let mut blocks = StrMap::new();
    for b in [block("page", ""), block("B1", "page"), block("C1", "B1"), block("B2", "page")] {
        blocks.insert(b.id.clone(), b);
    }
    let mut children_map = StrMap::new();
    children_map.insert("page_children".to_string(), vec!["B1".to_string(), "B2".to_string()]);
    children_map.insert("B1_children".to_string(), vec!["C1".to_string()]);
    let data = DocumentData {
        page_id: "page".to_string(),
        blocks,
        meta: DocumentMeta { children_map, text_map: None },
    };
    Document::create_with_data(data).unwrap()
}

fn move_action(id: &str, parent: &str, prev: Option<&str>) -> BlockAction {
    BlockAction {
        action: BlockActionType::Move,
        payload: BlockActionPayload {
            block: Some(block(id, "")),
            prev_id: prev.map(|p| p.to_string()),
            parent_id: Some(parent.to_string()),
            text_id: None,
            delta: None,
        },
    }
}

#[test]
fn move_block_between_parents_with_undo_redo() {
    let mut doc = sample();
    doc.apply_action(vec![move_action("C1", "B2", None)]).unwrap();
    assert!(children(&doc, "B1").is_empty());
    assert_eq!(children(&doc, "B2"), vec!["C1".to_string()]);
    assert_eq!(doc.get_block(&"C1".to_string()).unwrap().parent, "B2");
    assert!(doc.can_undo());
    assert!(doc.undo());
    assert_eq!(children(&doc, "B1"), vec!["C1".to_string()]);
    assert!(children(&doc, "B2").is_empty());
    assert!(doc.can_redo());
    assert!(doc.redo());
    assert!(children(&doc, "B1").is_empty());
    assert_eq!(children(&doc, "B2"), vec!["C1".to_string()]);
    assert_eq!(doc.get_block(&"C1".to_string()).unwrap().parent, "B2");
}

#[test]
fn move_within_parent_after_prev() {
    let mut doc = sample();
    doc.move_block(&"B1".to_string(), Some("page".to_string()), Some("B2".to_string())).unwrap();
    assert_eq!(children(&doc, "page"), vec!["B2".to_string(), "B1".to_string()]);
    assert!(matches!(
        doc.move_block(&"B1".to_string(), Some("nope".to_string()), None),
        Err(DocumentError::ParentIsNotFound)
    ));
    assert!(matches!(
        doc.move_block(&"nope".to_string(), Some("page".to_string()), None),
        Err(DocumentError::BlockIsNotFound)
    ));
    assert!(matches!(doc.move_block(&"B1".to_string(), None, None), Err(DocumentError::ParentIsNotFound)));
}

#[test]
fn failed_action_rolls_back_whole_transaction() {
    let mut doc = sample();
    let bad = BlockAction {
        action: BlockActionType::Delete,
        payload: BlockActionPayload { block: None, prev_id: None, parent_id: None, text_id: None, delta: None },
    };
    let r = doc.apply_action(vec![move_action("C1", "B2", None), bad]);
    assert!(matches!(r, Err(DocumentError::BlockIsNotFound)));
    assert_eq!(children(&doc, "B1"), vec!["C1".to_string()]);
    assert!(!doc.can_undo());
    let text = BlockAction {
        action: BlockActionType::InsertText,
        payload: BlockActionPayload { block: None, prev_id: None, parent_id: None, text_id: None, delta: None },
    };
    assert!(matches!(doc.apply_action(vec![text]), Err(DocumentError::TextActionParamsError)));
}

#[test]
fn insert_and_delete_blocks() {
    let mut doc = sample();
    let insert = BlockAction {
        action: BlockActionType::Insert,
        payload: BlockActionPayload {
            block: Some(block("N", "")),
            prev_id: Some("B1".to_string()),
            parent_id: Some("page".to_string()),
            text_id: None,
            delta: None,
        },
    };
    doc.apply_action(vec![insert]).unwrap();
    assert_eq!(children(&doc, "page"), vec!["B1".to_string(), "N".to_string(), "B2".to_string()]);
    assert_eq!(doc.get_block(&"N".to_string()).unwrap().parent, "page");
    doc.delete_block(&"B1".to_string()).unwrap();
    assert!(doc.get_block(&"B1".to_string()).is_none());
    assert!(doc.get_block(&"C1".to_string()).is_none());
    assert_eq!(children(&doc, "page"), vec!["N".to_string(), "B2".to_string()]);
    assert!(matches!(doc.delete_block(&"B1".to_string()), Err(DocumentError::BlockIsNotFound)));
    doc.update_block_data(&"N".to_string(), "{\"x\":1}".to_string()).unwrap();
    assert_eq!(doc.get_block(&"N".to_string()).unwrap().data, "{\"x\":1}");
}

#[test]
fn text_deltas_that_do_not_parse_change_nothing() {
    let mut doc = sample();
    let t = "t1".to_string();
    doc.create_text(&t, "[{\"insert\":\"Hello\"}]".to_string());
    doc.apply_text_delta(&t, "not json".to_string());
    doc.apply_text_delta(&t, "[{\"insert\":\" World\"}]".to_string());
    let data = doc.get_document_data().unwrap();
    let texts = data.meta.text_map.unwrap();
    assert_eq!(
        texts.get(&t).unwrap(),
        &vec!["[{\"insert\":\"Hello\"}]".to_string(), "[{\"insert\":\" World\"}]".to_string()]
    );
    doc.create_text(&t, "{}".to_string());
    let texts = doc.get_document_data().unwrap().meta.text_map.unwrap();
    assert!(texts.get(&t).unwrap().is_empty());
}

#[test]
fn document_data_round_trip() {
    let mut doc = sample();
    doc.apply_action(vec![move_action("C1", "B2", None)]).unwrap();
    doc.create_text(&"t".to_string(), "[{\"insert\":\"a\"}]".to_string());
    let data = doc.get_document_data().unwrap();
    let again = Document::create_with_data(data).unwrap();
    let a = doc.get_document_data().unwrap();
    let b = again.get_document_data().unwrap();
    assert_eq!(a.page_id, b.page_id);
    for id in ["page", "B1", "C1", "B2"] {
        assert_eq!(children(&doc, id), children(&again, id));
        assert_eq!(doc.get_block(&id.to_string()).unwrap().parent, again.get_block(&id.to_string()).unwrap().parent);
    }
    assert_eq!(
        a.meta.text_map.unwrap().get(&"t".to_string()),
        b.meta.text_map.unwrap().get(&"t".to_string())
    );
}

#[test]
fn open_requires_a_root() {
    assert!(matches!(Document::open(None), Err(DocumentError::Internal(_))));
    let data = DocumentData {
        page_id: "p".to_string(),
        blocks: StrMap::new(),
        meta: DocumentMeta { children_map: StrMap::new(), text_map: None },
    };
    let doc = Document::open(Some(data)).unwrap();
    assert_eq!(doc.get_document_data().unwrap().page_id, "p");
    assert!(!doc.can_undo() && !doc.can_redo());
}

#[test]
fn text_changes_inside_a_transaction_are_not_recorded() {
    let mut doc = sample();
    let t = "t".to_string();
    doc.create_text_with_txn(&t, "[{\"insert\":\"a\"}]".to_string());
    doc.apply_text_delta_with_txn(&t, "[{\"insert\":\"b\"}]".to_string());
    assert!(!doc.can_undo());
    let texts = doc.get_document_data().unwrap().meta.text_map.unwrap();
    assert_eq!(texts.get(&t).unwrap().len(), 2);
}

#[test]
fn empty_page_id_is_reported() {
    let data = DocumentData {
        page_id: "".to_string(),
        blocks: StrMap::new(),
        meta: DocumentMeta { children_map: StrMap::new(), text_map: None },
    };
    let doc = Document::open(Some(data)).unwrap();
    assert!(matches!(doc.get_document_data(), Err(DocumentError::PageIdIsEmpty)));
}

#[test]
fn delete_removes_descendants_and_texts() {
    let mut doc = sample();
    let mut g = block("G", "C1");
    g.external_id = Some("gtext".to_string());
    doc.insert_block(g, None).unwrap();
    doc.create_text(&"gtext".to_string(), "[{\"insert\":\"x\"}]".to_string());
    assert_eq!(children(&doc, "C1"), vec!["G".to_string()]);
    doc.delete_block(&"B1".to_string()).unwrap();
    assert!(doc.get_block(&"C1".to_string()).is_none());
    assert!(doc.get_block(&"G".to_string()).is_none());
    assert!(doc.get_block(&"B2".to_string()).is_some());
    assert_eq!(children(&doc, "page"), vec!["B2".to_string()]);
    let texts = doc.get_document_data().unwrap().meta.text_map.unwrap();
    assert!(texts.get(&"gtext".to_string()).is_none());
}
