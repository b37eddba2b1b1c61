use vstd::prelude::*;

use crate::strmap::{entries_map, keys_unique, lemma_entries_map_contains, lemma_entries_map_index, StrMap};

verus! {

/// Errors of the document operations.
#[derive(Debug)]
pub enum DocumentError {
    Internal(String),
    ParentIsNotFound,
    BlockIsNotFound,
    PageIdIsEmpty,
    TextActionParamsError,
}

/// A node of the document tree.
#[derive(Debug)]
pub struct Block {
    pub id: String,
    pub ty: String,
    /// Id of the parent block; empty for the page block.
    pub parent: String,
    /// Key of this block's list of children in the children map.
    pub children: String,
    /// Key of this block's text in the text map.
    pub external_id: Option<String>,
    pub external_type: Option<String>,
    /// The block's data, a JSON object as text.
    pub data: String,
}

fn copy_opt_string(s: &Option<String>) -> (r: Option<String>)
    ensures
        r == *s,
{
    match s {
        Some(v) => Some(v.clone()),
        None => None,
    }
}

impl Block {
    pub fn copy(&self) -> (r: Block)
        ensures
            r == *self,
    {
        Block {
            id: self.id.clone(),
            ty: self.ty.clone(),
            parent: self.parent.clone(),
            children: self.children.clone(),
            external_id: copy_opt_string(&self.external_id),
            external_type: copy_opt_string(&self.external_type),
            data: self.data.clone(),
        }
    }
}

/// Relations of the blocks and their texts.
pub struct DocumentMeta {
    /// Children list id to the ids of the children, in order.
    pub children_map: StrMap<Vec<String>>,
    /// Text id to the deltas applied to that text, in order.
    pub text_map: Option<StrMap<Vec<String>>>,
}

/// The whole content of a document.
pub struct DocumentData {
    pub page_id: String,
    pub blocks: StrMap<Block>,
    pub meta: DocumentMeta,
}

/// A document as the operations see it.
pub struct DocView {
    pub page_id: Option<String>,
    pub blocks: Map<Seq<char>, Block>,
    pub children: Map<Seq<char>, Seq<String>>,
    pub texts: Map<Seq<char>, Seq<String>>,
}

pub open spec fn lists_view(m: Map<Seq<char>, Vec<String>>) -> Map<Seq<char>, Seq<String>> {
    m.map_values(|v: Vec<String>| v@)
}

/// The list stored under `k`; a missing list reads as empty.
pub open spec fn list_of(m: Map<Seq<char>, Seq<String>>, k: Seq<char>) -> Seq<String> {
    if m.contains_key(k) {
        m[k]
    } else {
        Seq::empty()
    }
}

pub open spec fn is_first(s: Seq<String>, id: Seq<char>, i: int) -> bool {
    &&& 0 <= i < s.len()
    &&& s[i]@ == id
    &&& forall|j: int| 0 <= j < i ==> (#[trigger] s[j])@ != id
}

/// Position of the first `id` in `s`, or -1.
pub open spec fn first_index(s: Seq<String>, id: Seq<char>) -> int {
    if exists|i: int| is_first(s, id, i) {
        choose|i: int| is_first(s, id, i)
    } else {
        -1
    }
}

/// `s` without its first `id`.
pub open spec fn remove_first(s: Seq<String>, id: Seq<char>) -> Seq<String> {
    if first_index(s, id) >= 0 {
        s.remove(first_index(s, id))
    } else {
        s
    }
}

/// Where a child goes: right after `prev` when `prev` is in the list, else first.
pub open spec fn slot_after(s: Seq<String>, prev: Option<String>) -> int {
    match prev {
        Some(p) => if first_index(s, p@) >= 0 {
            first_index(s, p@) + 1
        } else {
            0
        },
        None => 0,
    }
}

/// Deltas of a text after `delta` is applied: a delta that does not parse
/// changes nothing.
pub open spec fn texts_after(
    t: Map<Seq<char>, Seq<String>>,
    id: Seq<char>,
    delta: String,
) -> Map<Seq<char>, Seq<String>> {
    t.insert(
        id,
        if text_delta_parses(delta@) {
            list_of(t, id).push(delta)
        } else {
            list_of(t, id)
        },
    )
}

/// Result of the text of `delta` read as a list of delta operations.
pub uninterp spec fn text_delta_parses(s: Seq<char>) -> bool;

/// Relies on serde_json::from_str: whether the text is a JSON array of objects,
/// the shape of a rich-text delta.
#[verifier::external_body]
fn parse_text_delta(delta: &String) -> (r: bool)
    ensures
        r == text_delta_parses(delta@),
{
    serde_json::from_str::<Vec<serde_json::Map<String, serde_json::Value>>>(delta).is_ok()
}

proof fn lemma_first_unique(s: Seq<String>, id: Seq<char>, i: int)
    requires
        is_first(s, id, i),
    ensures
        first_index(s, id) == i,
{
    let j = first_index(s, id);
    assert(is_first(s, id, j));
    if j < i {
        assert(s[j]@ != id);
    }
    if i < j {
        assert(s[i]@ != id);
    }
}

pub(crate) fn find_child(list: &Vec<String>, id: &String) -> (r: Option<usize>)
    ensures
        r matches Some(i) ==> first_index(list@, id@) == i as int && i < list@.len() <= usize::MAX,
        r is None ==> first_index(list@, id@) == -1,
{
    let mut i: usize = 0;
    while i < list.len()
        invariant
            i <= list@.len(),
            forall|j: int| 0 <= j < i ==> (#[trigger] list@[j])@ != id@,
        decreases list@.len() - i,
    {
        if list[i] == *id {
            proof {
                lemma_first_unique(list@, id@, i as int);
            }
            return Some(i);
        }
        i = i + 1;
    }
    assert(!exists|k: int| is_first(list@, id@, k));
    None
}

fn copy_list(list: &Vec<String>) -> (r: Vec<String>)
    ensures
        r@ == list@,
{
    let mut r: Vec<String> = Vec::new();
    let mut i: usize = 0;
    while i < list.len()
        invariant
            i <= list@.len(),
            r@ == list@.subrange(0, i as int),
        decreases list@.len() - i,
    {
        r.push(list[i].clone());
        proof {
            assert(list@.subrange(0, i + 1) =~= list@.subrange(0, i as int).push(list@[i as int]));
        }
        i = i + 1;
    }
    assert(list@.subrange(0, list@.len() as int) =~= list@);
    r
}

fn copy_lists(m: &StrMap<Vec<String>>) -> (r: StrMap<Vec<String>>)
    ensures
        lists_view(r@) == lists_view(m@),
{
    let n = m.len();
    let mut r: StrMap<Vec<String>> = StrMap::new();
    let mut i: usize = 0;
    while i < n
        invariant
            n == m.seq().len(),
            i <= n,
            crate::strmap::keys_unique(m.seq()),
            m@ == crate::strmap::entries_map(m.seq()),
            lists_view(r@) == lists_view(crate::strmap::entries_map(m.seq().subrange(0, i as int))),
        decreases n - i,
    {
        let k = m.key_at(i).clone();
        let v = copy_list(m.value_at(i));
        let ghost before = r@;
        let ghost vv = v@;
        let ghost vval = v;
        r.insert(k, v);
        proof {
            let s = m.seq();
            assert(s.subrange(0, i + 1).drop_last() =~= s.subrange(0, i as int));
            assert(s.subrange(0, i + 1).last() == s[i as int]);
            let prev = crate::strmap::entries_map(s.subrange(0, i as int));
            assert(crate::strmap::entries_map(s.subrange(0, i + 1)) == prev.insert(
                s[i as int].0@,
                s[i as int].1,
            ));
            assert(lists_view(before).dom() == lists_view(prev).dom());
            assert(lists_view(prev.insert(s[i as int].0@, s[i as int].1)) =~= lists_view(prev).insert(
                s[i as int].0@,
                s[i as int].1@,
            ));
            assert(lists_view(before.insert(s[i as int].0@, vval)) =~= lists_view(before).insert(
                s[i as int].0@,
                vv,
            ));
            assert(lists_view(r@) =~= lists_view(
                crate::strmap::entries_map(s.subrange(0, i + 1)),
            ));
        }
        i = i + 1;
    }
    assert(m.seq().subrange(0, n as int) =~= m.seq());
    r
}

fn copy_blocks(m: &StrMap<Block>) -> (r: StrMap<Block>)
    ensures
        r@ == m@,
{
    let n = m.len();
    let mut r: StrMap<Block> = StrMap::new();
    let mut i: usize = 0;
    while i < n
        invariant
            n == m.seq().len(),
            i <= n,
            m@ == crate::strmap::entries_map(m.seq()),
            r@ == crate::strmap::entries_map(m.seq().subrange(0, i as int)),
        decreases n - i,
    {
        let k = m.key_at(i).clone();
        let v = m.value_at(i).copy();
        r.insert(k, v);
        proof {
            let s = m.seq();
            assert(s.subrange(0, i + 1).drop_last() =~= s.subrange(0, i as int));
        }
        i = i + 1;
    }
    assert(m.seq().subrange(0, n as int) =~= m.seq());
    r
}

/// The stored state of a document.
struct DocState {
    page_id: Option<String>,
    blocks: StrMap<Block>,
    children_map: StrMap<Vec<String>>,
    text_map: StrMap<Vec<String>>,
}

impl DocState {
    spec fn view(&self) -> DocView {
        DocView {
            page_id: self.page_id,
            blocks: self.blocks@,
            children: lists_view(self.children_map@),
            texts: lists_view(self.text_map@),
        }
    }

    fn copy(&self) -> (r: DocState)
        ensures
            r.view() == self.view(),
    {
        DocState {
            page_id: copy_opt_string(&self.page_id),
            blocks: copy_blocks(&self.blocks),
            children_map: copy_lists(&self.children_map),
            text_map: copy_lists(&self.text_map),
        }
    }

    fn list(&self, key: &String) -> (r: Vec<String>)
        ensures
            r@ == list_of(self.view().children, key@),
    {
        match self.children_map.get(key) {
            Some(l) => copy_list(l),
            None => Vec::new(),
        }
    }

    fn set_list(&mut self, key: String, list: Vec<String>)
        ensures
            final(self).view() == (DocView {
                children: old(self).view().children.insert(key@, list@),
                ..old(self).view()
            }),
    {
        let ghost k = key@;
        let ghost l = list@;
        self.children_map.insert(key, list);
        assert(lists_view(self.children_map@) =~= lists_view(old(self).children_map@).insert(k, l));
    }

    fn text(&self, key: &String) -> (r: Vec<String>)
        ensures
            r@ == list_of(self.view().texts, key@),
    {
        match self.text_map.get(key) {
            Some(l) => copy_list(l),
            None => Vec::new(),
        }
    }

    fn set_text(&mut self, key: String, list: Vec<String>)
        ensures
            final(self).view() == (DocView {
                texts: old(self).view().texts.insert(key@, list@),
                ..old(self).view()
            }),
    {
        let ghost k = key@;
        let ghost l = list@;
        self.text_map.insert(key, list);
        assert(lists_view(self.text_map@) =~= lists_view(old(self).text_map@).insert(k, l));
    }

    fn remove_text(&mut self, key: &String)
        ensures
            final(self).view() == (DocView {
                texts: old(self).view().texts.remove(key@),
                ..old(self).view()
            }),
    {
        self.text_map.remove(key);
        assert(lists_view(self.text_map@) =~= lists_view(old(self).text_map@).remove(key@));
    }

    fn set_block(&mut self, block: Block)
        ensures
            final(self).view() == (DocView {
                blocks: old(self).view().blocks.insert(block.id@, block),
                ..old(self).view()
            }),
    {
        let k = block.id.clone();
        self.blocks.insert(k, block);
    }

    fn set_block_at(&mut self, key: &String, block: Block)
        ensures
            final(self).view() == (DocView {
                blocks: old(self).view().blocks.insert(key@, block),
                ..old(self).view()
            }),
    {
        self.blocks.insert(key.clone(), block);
    }

    fn remove_block(&mut self, id: &String)
        ensures
            final(self).view() == (DocView {
                blocks: old(self).view().blocks.remove(id@),
                ..old(self).view()
            }),
    {
        self.blocks.remove(id);
    }

    fn get_block(&self, id: &String) -> (r: Option<Block>)
        ensures
            r is None <==> !self.view().blocks.contains_key(id@),
            r matches Some(b) ==> b == self.view().blocks[id@],
    {
        match self.blocks.get(id) {
            Some(b) => Some(b.copy()),
            None => None,
        }
    }
}

/// Document after `block` is stored: under its id, with an empty children
/// list if it has none yet.
pub open spec fn spec_create_block(s: DocView, block: Block) -> DocView {
    DocView {
        blocks: s.blocks.insert(block.id@, block),
        children: if s.children.contains_key(block.children@) {
            s.children
        } else {
            s.children.insert(block.children@, Seq::empty())
        },
        ..s
    }
}

/// Links the stored `block` into its parent's children, after `prev`.
pub open spec fn spec_insert_to_parent(s: DocView, block: Block, prev: Option<String>) -> (
    Result<Block, DocumentError>,
    DocView,
) {
    if block.parent@.len() == 0 || !s.blocks.contains_key(block.parent@) {
        (Err(DocumentError::ParentIsNotFound), s)
    } else if !s.blocks.contains_key(block.id@) {
        (Err(DocumentError::BlockIsNotFound), s)
    } else {
        let pc = s.blocks[block.parent@].children@;
        let l = list_of(s.children, pc);
        (
            Ok(s.blocks[block.id@]),
            DocView { children: s.children.insert(pc, l.insert(slot_after(l, prev), block.id)), ..s },
        )
    }
}

pub open spec fn spec_insert_block(s: DocView, block: Block, prev: Option<String>) -> (
    Result<Block, DocumentError>,
    DocView,
) {
    spec_insert_to_parent(spec_create_block(s, block), block, prev)
}

/// Drops the first `id` from the children of `parent_id`, if that block exists.
pub open spec fn spec_delete_from_parent(s: DocView, id: Seq<char>, parent_id: Seq<char>) -> DocView {
    if s.blocks.contains_key(parent_id) {
        let pc = s.blocks[parent_id].children@;
        DocView { children: s.children.insert(pc, remove_first(list_of(s.children, pc), id)), ..s }
    } else {
        s
    }
}

pub open spec fn spec_update_data(s: DocView, id: Seq<char>, data: String) -> (
    Result<(), DocumentError>,
    DocView,
) {
    if !s.blocks.contains_key(id) {
        (Err(DocumentError::BlockIsNotFound), s)
    } else {
        (Ok(()), DocView { blocks: s.blocks.insert(id, Block { data, ..s.blocks[id] }), ..s })
    }
}

/// Moves block `id` under `parent`, after `prev`: it leaves its old parent's
/// list first, so a move within one parent works.
pub open spec fn spec_move(s: DocView, id: String, parent: Option<String>, prev: Option<String>) -> (
    Result<(), DocumentError>,
    DocView,
) {
    match parent {
        None => (Err(DocumentError::ParentIsNotFound), s),
        Some(p) => if !s.blocks.contains_key(p@) {
            (Err(DocumentError::ParentIsNotFound), s)
        } else if !s.blocks.contains_key(id@) {
            (Err(DocumentError::BlockIsNotFound), s)
        } else if !s.blocks.contains_key(s.blocks[id@].parent@) {
            (Err(DocumentError::ParentIsNotFound), s)
        } else {
            let np = s.blocks[p@];
            let b = s.blocks[id@];
            let oc = s.blocks[b.parent@].children@;
            let c1 = s.children.insert(oc, remove_first(list_of(s.children, oc), id@));
            let nl = list_of(c1, np.children@);
            (
                Ok(()),
                DocView {
                    blocks: s.blocks.insert(id@, Block { parent: np.id, ..b }),
                    children: c1.insert(np.children@, nl.insert(slot_after(nl, prev), id)),
                    ..s
                },
            )
        },
    }
}

pub open spec fn spec_apply_text(s: DocView, text_id: Seq<char>, delta: String) -> DocView {
    DocView { texts: texts_after(s.texts, text_id, delta), ..s }
}

/// A new, empty text under `text_id`, then `delta` applied to it.
pub open spec fn spec_create_text(s: DocView, text_id: Seq<char>, delta: String) -> DocView {
    spec_apply_text(DocView { texts: s.texts.insert(text_id, Seq::empty()), ..s }, text_id, delta)
}

/// What deleting block `id` may do: it fails only on a missing block, and
/// otherwise removes that block and possibly others, and changes no block
/// that stays.
pub open spec fn delete_post(s: DocView, id: Seq<char>, r: Result<(), DocumentError>, t: DocView) -> bool {
    &&& !s.blocks.contains_key(id) ==> r == Err::<(), DocumentError>(DocumentError::BlockIsNotFound)
        && t == s
    &&& s.blocks.contains_key(id) ==> r is Ok && !t.blocks.contains_key(id)
    &&& t.page_id == s.page_id
    &&& forall|k: Seq<char>| #[trigger]
        t.blocks.contains_key(k) ==> s.blocks.contains_key(k) && t.blocks[k] == s.blocks[k]
    &&& forall|k: Seq<char>| #[trigger] s.children.contains_key(k) ==> t.children.contains_key(k)
    &&& forall|k: Seq<char>| #[trigger]
        t.texts.contains_key(k) ==> s.texts.contains_key(k) && t.texts[k] == s.texts[k]
}

/// Deleting block `id` with a recursion depth of `fuel`: its children are
/// deleted first, in list order, one level less deep; then it leaves its
/// parent's children list, its text goes, and it goes.
pub open spec fn spec_delete(s: DocView, id: Seq<char>, fuel: nat) -> (Result<(), DocumentError>, DocView)
    decreases fuel, 0nat,
{
    if !s.blocks.contains_key(id) {
        (Err(DocumentError::BlockIsNotFound), s)
    } else {
        let b = s.blocks[id];
        let s1 = if fuel > 0 {
            delete_children(s, list_of(s.children, b.children@), (fuel - 1) as nat)
        } else {
            s
        };
        let s2 = spec_delete_from_parent(s1, id, b.parent@);
        let s3 = match b.external_id {
            Some(e) => DocView { texts: s2.texts.remove(e@), ..s2 },
            None => s2,
        };
        (Ok(()), DocView { blocks: s3.blocks.remove(id), ..s3 })
    }
}

/// Deleting each block of `kids` in order, each with a depth of `fuel`.
pub open spec fn delete_children(s: DocView, kids: Seq<String>, fuel: nat) -> DocView
    decreases fuel, kids.len(),
{
    if kids.len() == 0 {
        s
    } else {
        delete_children(spec_delete(s, kids[0]@, fuel).1, kids.drop_first(), fuel)
    }
}

/// The depth a whole deletion is given: the number of blocks, which no chain
/// of descendants in a tree exceeds.
pub open spec fn delete_fuel(s: DocView) -> nat {
    if s.blocks.len() == 0 {
        1
    } else {
        s.blocks.len()
    }
}

/// Every block listed among the direct children of block `id` is gone.
pub open spec fn children_gone(s: DocView, id: Seq<char>, t: DocView) -> bool {
    s.blocks.contains_key(id) ==> forall|j: int|
        0 <= j < list_of(s.children, s.blocks[id].children@).len() ==> !t.blocks.contains_key(
            #[trigger] list_of(s.children, s.blocks[id].children@)[j]@,
        )
}

/// Kind of a document action.
#[derive(Clone, Copy, Debug, PartialEq, Eq, Structural)]
pub enum BlockActionType {
    Insert,
    Update,
    Delete,
    Move,
    InsertText,
    ApplyTextDelta,
}

/// Arguments of a document action; each kind reads the fields it needs.
#[derive(Debug)]
pub struct BlockActionPayload {
    pub block: Option<Block>,
    pub prev_id: Option<String>,
    pub parent_id: Option<String>,
    pub text_id: Option<String>,
    pub delta: Option<String>,
}

#[derive(Debug)]
pub struct BlockAction {
    pub action: BlockActionType,
    pub payload: BlockActionPayload,
}

/// The block of an insert action: its own parent, or the payload's when it has none.
pub open spec fn insert_target(p: BlockActionPayload) -> Block {
    let b = p.block->Some_0;
    if b.parent@.len() == 0 && p.parent_id is Some {
        Block { parent: p.parent_id->Some_0, ..b }
    } else {
        b
    }
}

/// What one action does to a document: `r` is its outcome, `t` the document after it.
pub open spec fn action_post(s: DocView, a: BlockAction, r: Result<(), DocumentError>, t: DocView) -> bool {
    let p = a.payload;
    match a.action {
        BlockActionType::Insert => match p.block {
            None => r == Err::<(), DocumentError>(DocumentError::BlockIsNotFound) && t == s,
            Some(_) => {
                let (ir, it) = spec_insert_block(s, insert_target(p), p.prev_id);
                t == it && (ir is Ok <==> r is Ok) && (ir matches Err(e) ==> r == Err::<
                    (),
                    DocumentError,
                >(e))
            },
        },
        BlockActionType::Update => match p.block {
            None => r == Err::<(), DocumentError>(DocumentError::BlockIsNotFound) && t == s,
            Some(b) => (r, t) == spec_update_data(s, b.id@, b.data),
        },
        BlockActionType::Delete => match p.block {
            None => r == Err::<(), DocumentError>(DocumentError::BlockIsNotFound) && t == s,
            Some(b) => delete_post(s, b.id@, r, t) && children_gone(s, b.id@, t) && (r, t)
                == spec_delete(s, b.id@, delete_fuel(s)),
        },
        BlockActionType::Move => match p.block {
            None => r == Err::<(), DocumentError>(DocumentError::BlockIsNotFound) && t == s,
            Some(b) => (r, t) == spec_move(s, b.id, p.parent_id, p.prev_id),
        },
        BlockActionType::InsertText => if p.text_id is Some && p.delta is Some {
            r is Ok && t == spec_create_text(s, p.text_id->Some_0@, p.delta->Some_0)
        } else {
            r == Err::<(), DocumentError>(DocumentError::TextActionParamsError) && t == s
        },
        BlockActionType::ApplyTextDelta => if p.text_id is Some && p.delta is Some {
            r is Ok && t == spec_apply_text(s, p.text_id->Some_0@, p.delta->Some_0)
        } else {
            r == Err::<(), DocumentError>(DocumentError::TextActionParamsError) && t == s
        },
    }
}

impl DocState {
    fn create_block(&mut self, block: Block)
        ensures
            final(self).view() == spec_create_block(old(self).view(), block),
    {
        if !self.children_map.contains_key(&block.children) {
            let v: Vec<String> = Vec::new();
            assert(v@ == Seq::<String>::empty());
            self.set_list(block.children.clone(), v);
        }
        self.set_block(block);
    }

    fn insert_to_parent(&mut self, block: &Block, prev: Option<String>) -> (r: Result<
        Block,
        DocumentError,
    >)
        ensures
            (r, final(self).view()) == spec_insert_to_parent(old(self).view(), *block, prev),
    {
        if block.parent.as_str().is_empty() {
            return Err(DocumentError::ParentIsNotFound);
        }
        let parent = match self.get_block(&block.parent) {
            None => return Err(DocumentError::ParentIsNotFound),
            Some(p) => p,
        };
        let stored = match self.get_block(&block.id) {
            None => return Err(DocumentError::BlockIsNotFound),
            Some(b) => b,
        };
        let mut list = self.list(&parent.children);
        let idx: usize = match &prev {
            Some(p) => match find_child(&list, p) {
                Some(i) => i + 1,
                None => 0,
            },
            None => 0,
        };
        list.insert(idx, block.id.clone());
        self.set_list(parent.children.clone(), list);
        Ok(stored)
    }

    fn delete_from_parent(&mut self, id: &String, parent_id: &String)
        ensures
            final(self).view() == spec_delete_from_parent(old(self).view(), id@, parent_id@),
    {
        match self.get_block(parent_id) {
            None => {},
            Some(p) => {
                let mut list = self.list(&p.children);
                match find_child(&list, id) {
                    Some(i) => {
                        list.remove(i);
                    },
                    None => {},
                }
                self.set_list(p.children.clone(), list);
            },
        }
    }

    fn update_data(&mut self, id: &String, data: String) -> (r: Result<(), DocumentError>)
        ensures
            (r, final(self).view()) == spec_update_data(old(self).view(), id@, data),
    {
        match self.get_block(id) {
            None => Err(DocumentError::BlockIsNotFound),
            Some(b) => {
                let nb = Block { data, ..b };
                self.set_block_at(id, nb);
                Ok(())
            },
        }
    }

    fn move_block(&mut self, id: &String, parent: Option<String>, prev: Option<String>) -> (r: Result<
        (),
        DocumentError,
    >)
        ensures
            (r, final(self).view()) == spec_move(old(self).view(), *id, parent, prev),
    {
        let new_parent = match &parent {
            None => return Err(DocumentError::ParentIsNotFound),
            Some(p) => match self.get_block(p) {
                None => return Err(DocumentError::ParentIsNotFound),
                Some(np) => np,
            },
        };
        let block = match self.get_block(id) {
            None => return Err(DocumentError::BlockIsNotFound),
            Some(b) => b,
        };
        let old_parent = match self.get_block(&block.parent) {
            None => return Err(DocumentError::ParentIsNotFound),
            Some(op) => op,
        };
        let mut old_list = self.list(&old_parent.children);
        match find_child(&old_list, id) {
            Some(i) => {
                old_list.remove(i);
            },
            None => {},
        }
        self.set_list(old_parent.children.clone(), old_list);
        let mut new_list = self.list(&new_parent.children);
        let idx: usize = match &prev {
            Some(p) => match find_child(&new_list, p) {
                Some(i) => i + 1,
                None => 0,
            },
            None => 0,
        };
        new_list.insert(idx, id.clone());
        self.set_list(new_parent.children.clone(), new_list);
        let moved = Block { parent: new_parent.id.clone(), ..block };
        self.set_block_at(id, moved);
        Ok(())
    }

    fn apply_text(&mut self, text_id: &String, delta: String)
        ensures
            final(self).view() == spec_apply_text(old(self).view(), text_id@, delta),
    {
        let mut t = self.text(text_id);
        if parse_text_delta(&delta) {
            t.push(delta);
        }
        self.set_text(text_id.clone(), t);
    }

    /// Deletes block `id`, its descendants to a depth of `fuel`, its text and
    /// its place in its parent's children.
    fn delete_rec(&mut self, id: &String, fuel: usize) -> (r: Result<(), DocumentError>)
        ensures
            delete_post(old(self).view(), id@, r, final(self).view()),
            fuel > 0 ==> children_gone(old(self).view(), id@, final(self).view()),
            (r, final(self).view()) == spec_delete(old(self).view(), id@, fuel as nat),
        decreases fuel,
    {
        let block = match self.get_block(id) {
            None => return Err(DocumentError::BlockIsNotFound),
            Some(b) => b,
        };
        let ghost s0 = self.view();
        if fuel > 0 {
            let kids = self.list(&block.children);
            assert(kids@.subrange(0, kids@.len() as int) =~= kids@);
            let mut i: usize = 0;
            while i < kids.len()
                invariant
                    i <= kids@.len(),
                    fuel > 0,
                    self.view().page_id == s0.page_id,
                    forall|k: Seq<char>| #[trigger]
                        self.view().blocks.contains_key(k) ==> s0.blocks.contains_key(k)
                            && self.view().blocks[k] == s0.blocks[k],
                    forall|k: Seq<char>| #[trigger]
                        s0.children.contains_key(k) ==> self.view().children.contains_key(k),
                    forall|k: Seq<char>| #[trigger]
                        self.view().texts.contains_key(k) ==> s0.texts.contains_key(k)
                            && self.view().texts[k] == s0.texts[k],
                    kids@ == list_of(s0.children, block.children@),
                    forall|j: int| 0 <= j < i ==> !self.view().blocks.contains_key(#[trigger] kids@[j]@),
                    delete_children(self.view(), kids@.subrange(i as int, kids@.len() as int), (fuel - 1) as nat)
                        == delete_children(s0, kids@, (fuel - 1) as nat),
                decreases kids@.len() - i,
            {
                let ghost v = self.view();
                proof {
                    let rest = kids@.subrange(i as int, kids@.len() as int);
                    assert(rest[0] == kids@[i as int]);
                    assert(rest.drop_first() =~= kids@.subrange(i + 1, kids@.len() as int));
                }
                let _ = self.delete_rec(&kids[i], fuel - 1);
                i = i + 1;
            }
            proof {
                assert(kids@.subrange(kids@.len() as int, kids@.len() as int) =~= Seq::<String>::empty());
            }
        }
        let ghost s1 = self.view();
        self.delete_from_parent(id, &block.parent);
        match &block.external_id {
            Some(ext) => self.remove_text(ext),
            None => {},
        }
        self.remove_block(id);
        proof {
            if fuel > 0 {
                assert forall|j: int| 0 <= j < list_of(s0.children, s0.blocks[id@].children@).len() implies !self.view().blocks.contains_key(
                    #[trigger] list_of(s0.children, s0.blocks[id@].children@)[j]@,
                ) by {
                    assert(!s1.blocks.contains_key(list_of(s0.children, block.children@)[j]@));
                }
            }
        }
        Ok(())
    }
}

impl DocState {
    fn insert_block(&mut self, block: Block, prev: Option<String>) -> (r: Result<
        Block,
        DocumentError,
    >)
        ensures
            (r, final(self).view()) == spec_insert_block(old(self).view(), block, prev),
    {
        let b = block.copy();
        self.create_block(block);
        self.insert_to_parent(&b, prev)
    }

    fn create_text(&mut self, text_id: &String, delta: String)
        ensures
            final(self).view() == spec_create_text(old(self).view(), text_id@, delta),
    {
        let v: Vec<String> = Vec::new();
        assert(v@ == Seq::<String>::empty());
        self.set_text(text_id.clone(), v);
        self.apply_text(text_id, delta);
    }

    fn delete_block(&mut self, id: &String) -> (r: Result<(), DocumentError>)
        ensures
            delete_post(old(self).view(), id@, r, final(self).view()),
            children_gone(old(self).view(), id@, final(self).view()),
            (r, final(self).view()) == spec_delete(old(self).view(), id@, delete_fuel(old(self).view())),
    {
        let n = self.blocks.len();
        let fuel = if n == 0 {
            1
        } else {
            n
        };
        self.delete_rec(id, fuel)
    }

    fn handle(&mut self, a: &BlockAction) -> (r: Result<(), DocumentError>)
        ensures
            action_post(old(self).view(), *a, r, final(self).view()),
    {
        match a.action {
            BlockActionType::Insert => match &a.payload.block {
                None => Err(DocumentError::BlockIsNotFound),
                Some(b) => {
                    let mut block = b.copy();
                    if block.parent.as_str().is_empty() {
                        match &a.payload.parent_id {
                            Some(p) => {
                                block.parent = p.clone();
                            },
                            None => {},
                        }
                    }
                    assert(block == insert_target(a.payload));
                    let prev = copy_opt_string(&a.payload.prev_id);
                    match self.insert_block(block, prev) {
                        Ok(_) => Ok(()),
                        Err(e) => Err(e),
                    }
                },
            },
            BlockActionType::Update => match &a.payload.block {
                None => Err(DocumentError::BlockIsNotFound),
                Some(b) => self.update_data(&b.id, b.data.clone()),
            },
            BlockActionType::Delete => match &a.payload.block {
                None => Err(DocumentError::BlockIsNotFound),
                Some(b) => self.delete_block(&b.id),
            },
            BlockActionType::Move => match &a.payload.block {
                None => Err(DocumentError::BlockIsNotFound),
                Some(b) => self.move_block(
                    &b.id,
                    copy_opt_string(&a.payload.parent_id),
                    copy_opt_string(&a.payload.prev_id),
                ),
            },
            BlockActionType::InsertText => match (&a.payload.text_id, &a.payload.delta) {
                (Some(t), Some(d)) => {
                    self.create_text(t, d.clone());
                    Ok(())
                },
                _ => Err(DocumentError::TextActionParamsError),
            },
            BlockActionType::ApplyTextDelta => match (&a.payload.text_id, &a.payload.delta) {
                (Some(t), Some(d)) => {
                    self.apply_text(t, d.clone());
                    Ok(())
                },
                _ => Err(DocumentError::TextActionParamsError),
            },
        }
    }
}

/// Documents after each action of a run that succeeded: `states[i + 1]` is
/// `states[i]` after `actions[i]`.
pub open spec fn actions_run(s0: DocView, actions: Seq<BlockAction>, states: Seq<DocView>) -> bool {
    &&& states.len() == actions.len() + 1
    &&& states[0] == s0
    &&& forall|i: int|
        0 <= i < actions.len() ==> action_post(
            #[trigger] states[i],
            actions[i],
            Ok(()),
            states[i + 1],
        )
}

/// A run in which the actions before `k` succeed and action `k` fails with `e`.
pub open spec fn actions_fail(
    s0: DocView,
    actions: Seq<BlockAction>,
    k: int,
    states: Seq<DocView>,
    e: DocumentError,
) -> bool {
    &&& 0 <= k < actions.len()
    &&& states.len() == k + 1
    &&& states[0] == s0
    &&& forall|i: int|
        0 <= i < k ==> action_post(#[trigger] states[i], actions[i], Ok(()), states[i + 1])
    &&& exists|t: DocView| action_post(states[k], actions[k], Err(e), t)
}

/// Blocks stored one after the other, in the order of `bs`.
pub open spec fn fold_create_blocks(s: DocView, bs: Seq<(String, Block)>) -> DocView
    decreases bs.len(),
{
    if bs.len() == 0 {
        s
    } else {
        spec_create_block(fold_create_blocks(s, bs.drop_last()), bs.last().1)
    }
}

/// Each list of `es` appended to the list under its key.
pub open spec fn fold_children(c: Map<Seq<char>, Seq<String>>, es: Seq<(String, Vec<String>)>) -> Map<
    Seq<char>,
    Seq<String>,
>
    decreases es.len(),
{
    if es.len() == 0 {
        c
    } else {
        let c1 = fold_children(c, es.drop_last());
        c1.insert(es.last().0@, list_of(c1, es.last().0@) + es.last().1@)
    }
}

/// The deltas `ds` applied in order to the text `id`, which exists afterwards.
pub open spec fn fold_deltas(t: Map<Seq<char>, Seq<String>>, id: Seq<char>, ds: Seq<String>) -> Map<
    Seq<char>,
    Seq<String>,
>
    decreases ds.len(),
{
    if ds.len() == 0 {
        t.insert(id, list_of(t, id))
    } else {
        texts_after(fold_deltas(t, id, ds.drop_last()), id, ds.last())
    }
}

pub open spec fn fold_texts(t: Map<Seq<char>, Seq<String>>, es: Seq<(String, Vec<String>)>) -> Map<
    Seq<char>,
    Seq<String>,
>
    decreases es.len(),
{
    if es.len() == 0 {
        t
    } else {
        fold_deltas(fold_texts(t, es.drop_last()), es.last().0@, es.last().1@)
    }
}

pub open spec fn empty_doc(page_id: String) -> DocView {
    DocView { page_id: Some(page_id), blocks: Map::empty(), children: Map::empty(), texts: Map::empty() }
}

/// The document that `create_with_data` builds from `data`.
pub open spec fn spec_create_with_data(data: DocumentData) -> DocView {
    let b = fold_create_blocks(empty_doc(data.page_id), data.blocks.seq());
    DocView {
        children: fold_children(b.children, data.meta.children_map.seq()),
        texts: match data.meta.text_map {
            Some(t) => fold_texts(Map::empty(), t.seq()),
            None => Map::empty(),
        },
        ..b
    }
}

/// A document: a tree of blocks with their children lists and texts, and the
/// undo and redo history of its transactions.
pub struct Document {
    state: DocState,
    undo_stack: Vec<DocState>,
    redo_stack: Vec<DocState>,
}

spec fn states_view(v: Seq<DocState>) -> Seq<DocView> {
    v.map_values(|d: DocState| d.view())
}

impl Document {
    pub closed spec fn view(&self) -> DocView {
        self.state.view()
    }

    /// Documents that undo brings back, the latest last.
    pub closed spec fn undo_views(&self) -> Seq<DocView> {
        states_view(self.undo_stack@)
    }

    /// Documents that redo brings back, the latest last.
    pub closed spec fn redo_views(&self) -> Seq<DocView> {
        states_view(self.redo_stack@)
    }

    /// Opens the stored content of a document; `None` is a document whose root
    /// is missing, and an empty page id is no page id.
    pub fn open(root: Option<DocumentData>) -> (r: Result<Document, DocumentError>)
        ensures
            root is None ==> r matches Err(DocumentError::Internal(_)),
            root matches Some(d) ==> r matches Ok(doc) && doc.view() == (DocView {
                page_id: if d.page_id@.len() == 0 {
                    None
                } else {
                    Some(d.page_id)
                },
                blocks: d.blocks@,
                children: lists_view(d.meta.children_map@),
                texts: match d.meta.text_map {
                    Some(t) => lists_view(t@),
                    None => Map::empty(),
                },
            }) && doc.undo_views().len() == 0 && doc.redo_views().len() == 0,
    {
        match root {
            None => Err(DocumentError::Internal(String::from_str("Unexpected empty document value"))),
            Some(d) => {
                let texts = match d.meta.text_map {
                    Some(t) => t,
                    None => {
                        let t: StrMap<Vec<String>> = StrMap::new();
                        assert(lists_view(t@) =~= Map::empty());
                        t
                    },
                };
                let page_id = if d.page_id.as_str().is_empty() {
                    None
                } else {
                    Some(d.page_id)
                };
                let state = DocState {
                    page_id,
                    blocks: d.blocks,
                    children_map: d.meta.children_map,
                    text_map: texts,
                };
                Ok(Document { state, undo_stack: Vec::new(), redo_stack: Vec::new() })
            },
        }
    }

    /// A new document holding `data`: the blocks are stored under their ids, the
    /// children lists appended, and the text deltas applied.
    pub fn create_with_data(data: DocumentData) -> (r: Result<Document, DocumentError>)
        ensures
            r matches Ok(doc) && doc.view() == spec_create_with_data(data) && doc.undo_views().len()
                == 0 && doc.redo_views().len() == 0 && doc_wf(doc.view()),
    {
        proof {
            lemma_create_with_data_wf(data);
        }
        let mut state = DocState {
            page_id: Some(data.page_id.clone()),
            blocks: StrMap::new(),
            children_map: StrMap::new(),
            text_map: StrMap::new(),
        };
        proof {
            assert(lists_view(state.children_map@) =~= Map::empty());
            assert(lists_view(state.text_map@) =~= Map::empty());
            assert(state.view() == empty_doc(data.page_id));
        }
        let nb = data.blocks.len();
        let mut i: usize = 0;
        while i < nb
            invariant
                nb == data.blocks.seq().len(),
                i <= nb,
                state.view() == fold_create_blocks(
                    empty_doc(data.page_id),
                    data.blocks.seq().subrange(0, i as int),
                ),
                state.view().texts == Map::<Seq<char>, Seq<String>>::empty(),
            decreases nb - i,
        {
            let b = data.blocks.value_at(i).copy();
            state.create_block(b);
            proof {
                let s = data.blocks.seq();
                assert(s.subrange(0, i + 1).drop_last() =~= s.subrange(0, i as int));
            }
            i = i + 1;
        }
        assert(data.blocks.seq().subrange(0, nb as int) =~= data.blocks.seq());
        let ghost b = state.view();
        let nc = data.meta.children_map.len();
        let mut j: usize = 0;
        while j < nc
            invariant
                nc == data.meta.children_map.seq().len(),
                j <= nc,
                state.view() == (DocView {
                    children: fold_children(
                        b.children,
                        data.meta.children_map.seq().subrange(0, j as int),
                    ),
                    ..b
                }),
            decreases nc - j,
        {
            let key = data.meta.children_map.key_at(j);
            let mut list = state.list(key);
            let extra = data.meta.children_map.value_at(j);
            let mut m: usize = 0;
            let ghost base = list@;
            while m < extra.len()
                invariant
                    m <= extra@.len(),
                    list@ == base + extra@.subrange(0, m as int),
                decreases extra@.len() - m,
            {
                list.push(extra[m].clone());
                proof {
                    assert(extra@.subrange(0, m + 1) =~= extra@.subrange(0, m as int).push(
                        extra@[m as int],
                    ));
                }
                m = m + 1;
            }
            assert(extra@.subrange(0, extra@.len() as int) =~= extra@);
            state.set_list(key.clone(), list);
            proof {
                let s = data.meta.children_map.seq();
                assert(s.subrange(0, j + 1).drop_last() =~= s.subrange(0, j as int));
            }
            j = j + 1;
        }
        assert(data.meta.children_map.seq().subrange(0, nc as int) =~= data.meta.children_map.seq());
        match &data.meta.text_map {
            None => {},
            Some(t) => {
                let ghost c = state.view();
                assert(t.seq().subrange(0, 0) =~= Seq::<(String, Vec<String>)>::empty());
                let nt = t.len();
                let mut k: usize = 0;
                while k < nt
                    invariant
                        nt == t.seq().len(),
                        k <= nt,
                        state.view() == (DocView {
                            texts: fold_texts(Map::empty(), t.seq().subrange(0, k as int)),
                            ..c
                        }),
                    decreases nt - k,
                {
                    let key = t.key_at(k);
                    let ds = t.value_at(k);
                    let cur = state.text(key);
                    state.set_text(key.clone(), cur);
                    assert(ds@.subrange(0, 0) =~= Seq::<String>::empty());
                    let mut m: usize = 0;
                    while m < ds.len()
                        invariant
                            m <= ds@.len(),
                            k < nt,
                            nt == t.seq().len(),
                            *key == t.seq()[k as int].0,
                            *ds == t.seq()[k as int].1,
                            state.view() == (DocView {
                                texts: fold_deltas(
                                    fold_texts(Map::empty(), t.seq().subrange(0, k as int)),
                                    key@,
                                    ds@.subrange(0, m as int),
                                ),
                                ..c
                            }),
                        decreases ds@.len() - m,
                    {
                        state.apply_text(key, ds[m].clone());
                        proof {
                            assert(ds@.subrange(0, m + 1).drop_last() =~= ds@.subrange(0, m as int));
                        }
                        m = m + 1;
                    }
                    proof {
                        assert(ds@.subrange(0, ds@.len() as int) =~= ds@);
                        let s = t.seq();
                        assert(s.subrange(0, k + 1).drop_last() =~= s.subrange(0, k as int));
                    }
                    k = k + 1;
                }
                assert(t.seq().subrange(0, nt as int) =~= t.seq());
            },
        }
        Ok(Document { state, undo_stack: Vec::new(), redo_stack: Vec::new() })
    }
}

impl Document {
    /// Records a finished transaction: `before` goes on the undo history and the
    /// redo history is dropped.
    fn commit(&mut self, before: DocState)
        ensures
            final(self).view() == old(self).view(),
            final(self).undo_views() == old(self).undo_views().push(before.view()),
            final(self).redo_views() == Seq::<DocView>::empty(),
    {
        self.undo_stack.push(before);
        self.redo_stack.clear();
        assert(self.undo_views() =~= old(self).undo_views().push(before.view()));
        assert(self.redo_views() =~= Seq::<DocView>::empty());
    }

    /// The document's content; fails when it has no page id.
    pub fn get_document_data(&self) -> (r: Result<DocumentData, DocumentError>)
        ensures
            self.view().page_id is None ==> r matches Err(DocumentError::PageIdIsEmpty),
            self.view().page_id matches Some(p) ==> (r matches Ok(d) && d.page_id == p
                && d.blocks@ == self.view().blocks && lists_view(d.meta.children_map@)
                == self.view().children && (d.meta.text_map matches Some(t) && lists_view(t@)
                == self.view().texts)),
    {
        match &self.state.page_id {
            None => Err(DocumentError::PageIdIsEmpty),
            Some(p) => Ok(
                DocumentData {
                    page_id: p.clone(),
                    blocks: copy_blocks(&self.state.blocks),
                    meta: DocumentMeta {
                        children_map: copy_lists(&self.state.children_map),
                        text_map: Some(copy_lists(&self.state.text_map)),
                    },
                },
            ),
        }
    }

    pub fn get_block(&self, block_id: &String) -> (r: Option<Block>)
        ensures
            r is None <==> !self.view().blocks.contains_key(block_id@),
            r matches Some(b) ==> b == self.view().blocks[block_id@],
    {
        self.state.get_block(block_id)
    }

    /// Stores `block` and links it into its parent's children after `prev_id`.
    pub fn insert_block(&mut self, block: Block, prev_id: Option<String>) -> (r: Result<
        Block,
        DocumentError,
    >)
        ensures
            (r, final(self).view()) == spec_insert_block(old(self).view(), block, prev_id),
            final(self).undo_views() == old(self).undo_views(),
            final(self).redo_views() == old(self).redo_views(),
    {
        self.state.insert_block(block, prev_id)
    }

    /// Links the stored `block` into its parent's children after `prev_id`, or
    /// first when `prev_id` is missing from them.
    pub fn insert_block_to_parent(&mut self, block: &Block, prev_id: Option<String>) -> (r: Result<
        Block,
        DocumentError,
    >)
        ensures
            (r, final(self).view()) == spec_insert_to_parent(old(self).view(), *block, prev_id),
            final(self).undo_views() == old(self).undo_views(),
            final(self).redo_views() == old(self).redo_views(),
    {
        self.state.insert_to_parent(block, prev_id)
    }

    /// Deletes a block with its descendants, its text and its place in its
    /// parent's children.
    pub fn delete_block(&mut self, block_id: &String) -> (r: Result<(), DocumentError>)
        ensures
            delete_post(old(self).view(), block_id@, r, final(self).view()),
            children_gone(old(self).view(), block_id@, final(self).view()),
            (r, final(self).view()) == spec_delete(old(self).view(), block_id@, delete_fuel(old(self).view())),
            final(self).undo_views() == old(self).undo_views(),
            final(self).redo_views() == old(self).redo_views(),
    {
        self.state.delete_block(block_id)
    }

    /// Removes the reference to `block_id` from the children of `parent_id`.
    pub fn delete_block_from_parent(&mut self, block_id: &String, parent_id: &String)
        ensures
            final(self).view() == spec_delete_from_parent(old(self).view(), block_id@, parent_id@),
            final(self).undo_views() == old(self).undo_views(),
            final(self).redo_views() == old(self).redo_views(),
    {
        self.state.delete_from_parent(block_id, parent_id)
    }

    pub fn update_block_data(&mut self, block_id: &String, data: String) -> (r: Result<
        (),
        DocumentError,
    >)
        ensures
            (r, final(self).view()) == spec_update_data(old(self).view(), block_id@, data),
            final(self).undo_views() == old(self).undo_views(),
            final(self).redo_views() == old(self).redo_views(),
    {
        self.state.update_data(block_id, data)
    }

    /// Moves a block under `parent_id`, right after `prev_id` or first.
    pub fn move_block(&mut self, block_id: &String, parent_id: Option<String>, prev_id: Option<
        String,
    >) -> (r: Result<(), DocumentError>)
        ensures
            (r, final(self).view()) == spec_move(old(self).view(), *block_id, parent_id, prev_id),
            final(self).undo_views() == old(self).undo_views(),
            final(self).redo_views() == old(self).redo_views(),
    {
        self.state.move_block(block_id, parent_id, prev_id)
    }

    /// Creates the text `text_id` afresh with `delta`, in a transaction of its own.
    pub fn create_text(&mut self, text_id: &String, delta: String)
        ensures
            final(self).view() == spec_create_text(old(self).view(), text_id@, delta),
            final(self).undo_views() == old(self).undo_views().push(old(self).view()),
            final(self).redo_views() == Seq::<DocView>::empty(),
    {
        let before = self.state.copy();
        self.state.create_text(text_id, delta);
        self.commit(before);
    }

    /// Creates the text `text_id` afresh with `delta`, inside the caller's
    /// transaction: nothing is recorded for undo.
    pub fn create_text_with_txn(&mut self, text_id: &String, delta: String)
        ensures
            final(self).view() == spec_create_text(old(self).view(), text_id@, delta),
            final(self).undo_views() == old(self).undo_views(),
            final(self).redo_views() == old(self).redo_views(),
    {
        self.state.create_text(text_id, delta);
    }

    /// Applies `delta` to the text `text_id` inside the caller's transaction.
    pub fn apply_text_delta_with_txn(&mut self, text_id: &String, delta: String)
        ensures
            final(self).view() == spec_apply_text(old(self).view(), text_id@, delta),
            final(self).undo_views() == old(self).undo_views(),
            final(self).redo_views() == old(self).redo_views(),
    {
        self.state.apply_text(text_id, delta);
    }

    /// Applies `delta` to the text `text_id`, in a transaction of its own.
    pub fn apply_text_delta(&mut self, text_id: &String, delta: String)
        ensures
            final(self).view() == spec_apply_text(old(self).view(), text_id@, delta),
            final(self).undo_views() == old(self).undo_views().push(old(self).view()),
            final(self).redo_views() == Seq::<DocView>::empty(),
    {
        let before = self.state.copy();
        self.state.apply_text(text_id, delta);
        self.commit(before);
    }

    /// Applies the actions in order in one transaction. The first failing
    /// action aborts it: the document is then as before and the error returned.
    pub fn apply_action(&mut self, actions: Vec<BlockAction>) -> (r: Result<(), DocumentError>)
        ensures
            r is Ok ==> (exists|states: Seq<DocView>|
                #[trigger] actions_run(old(self).view(), actions@, states) && states.last()
                    == final(self).view()) && final(self).undo_views() == old(
                self,
            ).undo_views().push(old(self).view()) && final(self).redo_views() == Seq::<
                DocView,
            >::empty(),
            r matches Err(e) ==> exists|k: int, states: Seq<DocView>|
                #[trigger] actions_fail(old(self).view(), actions@, k, states, e),
            r is Err ==> final(self).view() == old(self).view(),
            r is Err ==> final(self).undo_views() == old(self).undo_views(),
            r is Err ==> final(self).redo_views() == old(self).redo_views(),
    {
        let before = self.state.copy();
        let ghost s0 = self.view();
        let ghost mut states: Seq<DocView> = seq![s0];
        let mut i: usize = 0;
        while i < actions.len()
            invariant
                i <= actions@.len(),
                states.len() == i + 1,
                states[0] == s0,
                states.last() == self.view(),
                forall|j: int|
                    0 <= j < i ==> action_post(
                        #[trigger] states[j],
                        actions@[j],
                        Ok(()),
                        states[j + 1],
                    ),
                before.view() == s0,
                s0 == old(self).view(),
                self.undo_stack == old(self).undo_stack,
                self.redo_stack == old(self).redo_stack,
            decreases actions@.len() - i,
        {
            let ghost cur = self.view();
            match self.state.handle(&actions[i]) {
                Ok(()) => {},
                Err(e) => {
                    proof {
                        let t = self.view();
                        assert(action_post(cur, actions@[i as int], Err(e), t));
                        assert(states[i as int] == cur);
                        assert(exists|t2: DocView| action_post(states[i as int], actions@[i as int], Err(e), t2));
                        assert(actions_fail(s0, actions@, i as int, states, e));
                    }
                    self.state = before;
                    return Err(e);
                },
            }
            proof {
                states = states.push(self.view());
            }
            i = i + 1;
        }
        assert(actions_run(s0, actions@, states));
        self.commit(before);
        Ok(())
    }

    pub fn can_undo(&self) -> (r: bool)
        ensures
            r == (self.undo_views().len() > 0),
    {
        self.undo_stack.len() > 0
    }

    pub fn can_redo(&self) -> (r: bool)
        ensures
            r == (self.redo_views().len() > 0),
    {
        self.redo_stack.len() > 0
    }

    /// Brings back the document before the latest transaction.
    pub fn undo(&mut self) -> (r: bool)
        ensures
            r == (old(self).undo_views().len() > 0),
            r ==> final(self).view() == old(self).undo_views().last() && final(self).undo_views()
                == old(self).undo_views().drop_last() && final(self).redo_views() == old(
                self,
            ).redo_views().push(old(self).view()),
            !r ==> final(self).view() == old(self).view() && final(self).undo_views() == old(
                self,
            ).undo_views() && final(self).redo_views() == old(self).redo_views(),
    {
        match self.undo_stack.pop() {
            None => false,
            Some(prev) => {
                let mut cur = prev;
                std::mem::swap(&mut self.state, &mut cur);
                self.redo_stack.push(cur);
                assert(self.undo_views() =~= old(self).undo_views().drop_last());
                assert(self.redo_views() =~= old(self).redo_views().push(old(self).view()));
                true
            },
        }
    }

    /// Brings back the document that the latest undo left.
    pub fn redo(&mut self) -> (r: bool)
        ensures
            r == (old(self).redo_views().len() > 0),
            r ==> final(self).view() == old(self).redo_views().last() && final(self).redo_views()
                == old(self).redo_views().drop_last() && final(self).undo_views() == old(
                self,
            ).undo_views().push(old(self).view()),
            !r ==> final(self).view() == old(self).view() && final(self).undo_views() == old(
                self,
            ).undo_views() && final(self).redo_views() == old(self).redo_views(),
    {
        match self.redo_stack.pop() {
            None => false,
            Some(next) => {
                let mut cur = next;
                std::mem::swap(&mut self.state, &mut cur);
                self.undo_stack.push(cur);
                assert(self.redo_views() =~= old(self).redo_views().drop_last());
                assert(self.undo_views() =~= old(self).undo_views().push(old(self).view()));
                true
            },
        }
    }
}

/// A document whose blocks are stored under their own ids, each with its
/// children list, and whose texts hold only deltas that parse.
pub open spec fn doc_wf(v: DocView) -> bool {
    &&& forall|k: Seq<char>| #[trigger]
        v.blocks.contains_key(k) ==> v.blocks[k].id@ == k && v.children.contains_key(
            v.blocks[k].children@,
        )
    &&& forall|k: Seq<char>, i: int|
        v.texts.contains_key(k) && 0 <= i < v.texts[k].len() ==> text_delta_parses(
            #[trigger] v.texts[k][i]@,
        )
}

/// Every action keeps a document well formed.
pub proof fn lemma_action_keeps_wf(s: DocView, a: BlockAction, r: Result<(), DocumentError>, t: DocView)
    requires
        doc_wf(s),
        action_post(s, a, r, t),
    ensures
        doc_wf(t),
{
    let p = a.payload;
    match a.action {
        BlockActionType::Insert => {
            if p.block is Some {
                let b = insert_target(p);
                let s1 = spec_create_block(s, b);
                assert(doc_wf(s1)) by {
                    assert forall|k: Seq<char>| #[trigger] s1.blocks.contains_key(k) implies s1.blocks[k].id@
                        == k && s1.children.contains_key(s1.blocks[k].children@) by {
                        if k != b.id@ {
                            assert(s.children.contains_key(s.blocks[k].children@));
                        }
                    }
                }
                let (ir, it) = spec_insert_to_parent(s1, b, p.prev_id);
                assert(doc_wf(it)) by {
                    assert forall|k: Seq<char>| #[trigger] it.blocks.contains_key(k) implies it.blocks[k].id@
                        == k && it.children.contains_key(it.blocks[k].children@) by {
                        assert(s1.children.contains_key(s1.blocks[k].children@));
                    }
                }
            }
        },
        BlockActionType::Update => {
            if p.block is Some {
                assert forall|k: Seq<char>| #[trigger] t.blocks.contains_key(k) implies t.blocks[k].id@ == k
                    && t.children.contains_key(t.blocks[k].children@) by {
                    assert(s.blocks.contains_key(k));
                }
            }
        },
        BlockActionType::Delete => {
            if p.block is Some {
                assert forall|k: Seq<char>| #[trigger] t.blocks.contains_key(k) implies t.blocks[k].id@ == k
                    && t.children.contains_key(t.blocks[k].children@) by {
                    assert(s.blocks.contains_key(k));
                    assert(s.children.contains_key(s.blocks[k].children@));
                }
                assert forall|k: Seq<char>, i: int|
                    t.texts.contains_key(k) && 0 <= i < t.texts[k].len() implies text_delta_parses(
                    #[trigger] t.texts[k][i]@,
                ) by {
                    assert(s.texts.contains_key(k));
                }
            }
        },
        BlockActionType::Move => {
            if p.block is Some {
                assert forall|k: Seq<char>| #[trigger] t.blocks.contains_key(k) implies t.blocks[k].id@ == k
                    && t.children.contains_key(t.blocks[k].children@) by {
                    assert(s.blocks.contains_key(k));
                    assert(s.children.contains_key(s.blocks[k].children@));
                }
            }
        },
        BlockActionType::InsertText | BlockActionType::ApplyTextDelta => {
            if p.text_id is Some && p.delta is Some {
                let id = p.text_id->Some_0@;
                assert forall|k: Seq<char>, i: int|
                    t.texts.contains_key(k) && 0 <= i < t.texts[k].len() implies text_delta_parses(
                    #[trigger] t.texts[k][i]@,
                ) by {
                    if k != id {
                        assert(s.texts.contains_key(k));
                    } else if a.action == BlockActionType::ApplyTextDelta && s.texts.contains_key(k) && i < s.texts[k].len() {
                        assert(t.texts[k][i] == s.texts[k][i]);
                    }
                }
            }
        },
    }
}

/// A run of actions keeps a document well formed.
pub proof fn lemma_actions_keep_wf(s0: DocView, actions: Seq<BlockAction>, states: Seq<DocView>)
    requires
        doc_wf(s0),
        actions_run(s0, actions, states),
    ensures
        doc_wf(states.last()),
{
    lemma_run_prefix_wf(s0, actions, states, actions.len() as int);
}

proof fn lemma_run_prefix_wf(s0: DocView, actions: Seq<BlockAction>, states: Seq<DocView>, k: int)
    requires
        doc_wf(s0),
        actions_run(s0, actions, states),
        0 <= k <= actions.len(),
    ensures
        doc_wf(states[k]),
    decreases k,
{
    if k > 0 {
        lemma_run_prefix_wf(s0, actions, states, k - 1);
        lemma_action_keeps_wf(states[k - 1], actions[k - 1], Ok(()), states[k]);
    }
}

proof fn lemma_fold_blocks(p: String, bs: Seq<(String, Block)>)
    requires
        forall|i: int| 0 <= i < bs.len() ==> (#[trigger] bs[i]).1.id@ == bs[i].0@,
    ensures
        ({
            let f = fold_create_blocks(empty_doc(p), bs);
            &&& f.page_id == Some(p)
            &&& f.texts == Map::<Seq<char>, Seq<String>>::empty()
            &&& f.blocks == entries_map(bs)
            &&& forall|k: Seq<char>| #[trigger]
                f.children.contains_key(k) ==> f.children[k] == Seq::<String>::empty()
            &&& forall|k: Seq<char>| #[trigger]
                f.blocks.contains_key(k) ==> f.children.contains_key(f.blocks[k].children@)
            &&& forall|k: Seq<char>| #[trigger]
                f.children.contains_key(k) ==> exists|i: int|
                    0 <= i < bs.len() && (#[trigger] bs[i]).1.children@ == k
        }),
    decreases bs.len(),
{
    if bs.len() > 0 {
        let d = bs.drop_last();
        assert forall|i: int| 0 <= i < d.len() implies (#[trigger] d[i]).1.id@ == d[i].0@ by {
            assert(d[i] == bs[i]);
        }
        lemma_fold_blocks(p, d);
        let f0 = fold_create_blocks(empty_doc(p), d);
        let f = fold_create_blocks(empty_doc(p), bs);
        assert(bs.last() == bs[bs.len() - 1]);
        assert forall|k: Seq<char>| #[trigger] f.blocks.contains_key(k) implies f.children.contains_key(
            f.blocks[k].children@,
        ) by {
            if k != bs.last().1.id@ {
                assert(f0.children.contains_key(f0.blocks[k].children@));
            }
        }
        assert forall|k: Seq<char>| #[trigger] f.children.contains_key(k) implies exists|i: int|
            0 <= i < bs.len() && (#[trigger] bs[i]).1.children@ == k by {
            if f0.children.contains_key(k) {
                let i = choose|i: int| 0 <= i < d.len() && (#[trigger] d[i]).1.children@ == k;
                assert(bs[i] == d[i]);
            } else {
                assert(bs[bs.len() - 1].1.children@ == k);
            }
        }
    }
}

proof fn lemma_fold_children(c: Map<Seq<char>, Seq<String>>, es: Seq<(String, Vec<String>)>)
    requires
        keys_unique(es),
        forall|k: Seq<char>| #[trigger] c.contains_key(k) ==> c[k] == Seq::<String>::empty(),
    ensures
        fold_children(c, es) == c.union_prefer_right(lists_view(entries_map(es))),
    decreases es.len(),
{
    if es.len() > 0 {
        let d = es.drop_last();
        assert(keys_unique(d)) by {
            assert forall|a: int, b: int| 0 <= a < b < d.len() implies (#[trigger] d[a]).0@ != (
            #[trigger] d[b]).0@ by {
                assert(d[a] == es[a]);
                assert(d[b] == es[b]);
            }
        }
        lemma_fold_children(c, d);
        let k = es.last().0@;
        lemma_entries_map_contains(d, k);
        if entries_map(d).contains_key(k) {
            let i = choose|i: int| 0 <= i < d.len() && (#[trigger] d[i]).0@ == k;
            assert(d[i] == es[i]);
            assert(es[i].0@ != es[es.len() - 1].0@);
        }
        let f1 = c.union_prefer_right(lists_view(entries_map(d)));
        assert(list_of(f1, k) == Seq::<String>::empty());
        assert(Seq::<String>::empty() + es.last().1@ =~= es.last().1@);
        assert(fold_children(c, es) =~= c.union_prefer_right(lists_view(entries_map(es))));
    }
}

proof fn lemma_fold_deltas(t: Map<Seq<char>, Seq<String>>, id: Seq<char>, ds: Seq<String>)
    requires
        forall|i: int| 0 <= i < ds.len() ==> text_delta_parses(#[trigger] ds[i]@),
    ensures
        fold_deltas(t, id, ds) == t.insert(id, list_of(t, id) + ds),
    decreases ds.len(),
{
    if ds.len() == 0 {
        assert(list_of(t, id) + ds =~= list_of(t, id));
    } else {
        let d = ds.drop_last();
        assert forall|i: int| 0 <= i < d.len() implies text_delta_parses(#[trigger] d[i]@) by {
            assert(d[i] == ds[i]);
        }
        lemma_fold_deltas(t, id, d);
        assert(text_delta_parses(ds[ds.len() - 1]@));
        let f = fold_deltas(t, id, d);
        assert(list_of(f, id) == list_of(t, id) + d);
        assert((list_of(t, id) + d).push(ds.last()) =~= list_of(t, id) + ds);
        assert(fold_deltas(t, id, ds) =~= t.insert(id, list_of(t, id) + ds));
    }
}

proof fn lemma_fold_texts(es: Seq<(String, Vec<String>)>)
    requires
        keys_unique(es),
        forall|i: int, j: int|
            0 <= i < es.len() && 0 <= j < es[i].1@.len() ==> text_delta_parses(
                #[trigger] es[i].1@[j]@,
            ),
    ensures
        fold_texts(Map::empty(), es) == lists_view(entries_map(es)),
    decreases es.len(),
{
    if es.len() > 0 {
        let d = es.drop_last();
        assert(keys_unique(d)) by {
            assert forall|a: int, b: int| 0 <= a < b < d.len() implies (#[trigger] d[a]).0@ != (
            #[trigger] d[b]).0@ by {
                assert(d[a] == es[a]);
                assert(d[b] == es[b]);
            }
        }
        assert forall|i: int, j: int| 0 <= i < d.len() && 0 <= j < d[i].1@.len() implies text_delta_parses(
            #[trigger] d[i].1@[j]@,
        ) by {
            assert(d[i] == es[i]);
        }
        lemma_fold_texts(d);
        let k = es.last().0@;
        let ds = es.last().1@;
        assert forall|j: int| 0 <= j < ds.len() implies text_delta_parses(#[trigger] ds[j]@) by {
            assert(es[es.len() - 1].1@[j] == ds[j]);
        }
        let f1 = lists_view(entries_map(d));
        lemma_fold_deltas(f1, k, ds);
        lemma_entries_map_contains(d, k);
        if entries_map(d).contains_key(k) {
            let i = choose|i: int| 0 <= i < d.len() && (#[trigger] d[i]).0@ == k;
            assert(d[i] == es[i]);
            assert(es[i].0@ != es[es.len() - 1].0@);
        }
        assert(Seq::<String>::empty() + ds =~= ds);
        assert(fold_texts(Map::empty(), es) =~= lists_view(entries_map(es)));
    }
}

/// A well-formed document survives its own data: `create_with_data` on what
/// `get_document_data` returns builds the same blocks, children lists and
/// texts.
pub proof fn lemma_document_round_trip(d: DocumentData, v: DocView)
    requires
        doc_wf(v),
        v.page_id == Some(d.page_id),
        d.blocks@ == v.blocks,
        lists_view(d.meta.children_map@) == v.children,
        d.meta.text_map matches Some(t) && lists_view(t@) == v.texts && keys_unique(t.seq()),
        keys_unique(d.blocks.seq()),
        keys_unique(d.meta.children_map.seq()),
    ensures
        spec_create_with_data(d) == v,
{
    let bs = d.blocks.seq();
    let es = d.meta.children_map.seq();
    let t = d.meta.text_map->Some_0;
    let ts = t.seq();
    d.blocks.lemma_view_entries();
    d.meta.children_map.lemma_view_entries();
    t.lemma_view_entries();
    assert forall|i: int| 0 <= i < bs.len() implies (#[trigger] bs[i]).1.id@ == bs[i].0@ by {
        lemma_entries_map_index(bs, i);
        assert(v.blocks.contains_key(bs[i].0@));
    }
    lemma_fold_blocks(d.page_id, bs);
    let b = fold_create_blocks(empty_doc(d.page_id), bs);
    lemma_fold_children(b.children, es);
    assert(b.children.union_prefer_right(lists_view(entries_map(es))) =~= v.children) by {
        assert forall|k: Seq<char>| #[trigger] b.children.contains_key(k) implies v.children.contains_key(k) by {
            let i = choose|i: int| 0 <= i < bs.len() && (#[trigger] bs[i]).1.children@ == k;
            lemma_entries_map_index(bs, i);
            assert(v.blocks.contains_key(bs[i].0@));
            assert(v.blocks[bs[i].0@] == bs[i].1);
        }
    }
    assert forall|i: int, j: int| 0 <= i < ts.len() && 0 <= j < ts[i].1@.len() implies text_delta_parses(
        #[trigger] ts[i].1@[j]@,
    ) by {
        lemma_entries_map_index(ts, i);
        assert(v.texts.contains_key(ts[i].0@));
        assert(v.texts[ts[i].0@] == ts[i].1@);
    }
    lemma_fold_texts(ts);
    assert(spec_create_with_data(d) =~= v);
}

proof fn lemma_fold_blocks_wf(p: String, bs: Seq<(String, Block)>)
    ensures
        doc_wf(fold_create_blocks(empty_doc(p), bs)),
        fold_create_blocks(empty_doc(p), bs).texts == Map::<Seq<char>, Seq<String>>::empty(),
    decreases bs.len(),
{
    if bs.len() > 0 {
        lemma_fold_blocks_wf(p, bs.drop_last());
        let f0 = fold_create_blocks(empty_doc(p), bs.drop_last());
        let f = fold_create_blocks(empty_doc(p), bs);
        assert forall|k: Seq<char>| #[trigger] f.blocks.contains_key(k) implies f.blocks[k].id@ == k
            && f.children.contains_key(f.blocks[k].children@) by {
            if k != bs.last().1.id@ {
                assert(f0.children.contains_key(f0.blocks[k].children@));
            }
        }
    }
}

proof fn lemma_fold_children_keys(c: Map<Seq<char>, Seq<String>>, es: Seq<(String, Vec<String>)>)
    ensures
        forall|k: Seq<char>| #[trigger] c.contains_key(k) ==> fold_children(c, es).contains_key(k),
    decreases es.len(),
{
    if es.len() > 0 {
        lemma_fold_children_keys(c, es.drop_last());
    }
}

proof fn lemma_fold_deltas_parse(t: Map<Seq<char>, Seq<String>>, id: Seq<char>, ds: Seq<String>)
    requires
        forall|k: Seq<char>, i: int|
            t.contains_key(k) && 0 <= i < t[k].len() ==> text_delta_parses(#[trigger] t[k][i]@),
    ensures
        ({
            let f = fold_deltas(t, id, ds);
            forall|k: Seq<char>, i: int|
                f.contains_key(k) && 0 <= i < f[k].len() ==> text_delta_parses(#[trigger] f[k][i]@)
        }),
    decreases ds.len(),
{
    if ds.len() > 0 {
        lemma_fold_deltas_parse(t, id, ds.drop_last());
        let f0 = fold_deltas(t, id, ds.drop_last());
        let f = fold_deltas(t, id, ds);
        assert forall|k: Seq<char>, i: int| f.contains_key(k) && 0 <= i < f[k].len() implies text_delta_parses(
            #[trigger] f[k][i]@,
        ) by {
            if k == id && i < list_of(f0, id).len() {
                assert(f[k][i] == list_of(f0, id)[i]);
            } else if k != id {
                assert(f[k] == f0[k]);
            }
        }
    } else {
        let f = fold_deltas(t, id, ds);
        assert forall|k: Seq<char>, i: int| f.contains_key(k) && 0 <= i < f[k].len() implies text_delta_parses(
            #[trigger] f[k][i]@,
        ) by {
            if k == id && t.contains_key(id) {
                assert(f[k][i] == t[id][i]);
            } else if k != id {
                assert(f[k] == t[k]);
            }
        }
    }
}

proof fn lemma_fold_texts_parse(es: Seq<(String, Vec<String>)>)
    ensures
        ({
            let f = fold_texts(Map::empty(), es);
            forall|k: Seq<char>, i: int|
                f.contains_key(k) && 0 <= i < f[k].len() ==> text_delta_parses(#[trigger] f[k][i]@)
        }),
    decreases es.len(),
{
    if es.len() > 0 {
        lemma_fold_texts_parse(es.drop_last());
        lemma_fold_deltas_parse(fold_texts(Map::empty(), es.drop_last()), es.last().0@, es.last().1@);
    }
}

/// `create_with_data` always builds a well-formed document.
pub proof fn lemma_create_with_data_wf(d: DocumentData)
    ensures
        doc_wf(spec_create_with_data(d)),
{
    let b = fold_create_blocks(empty_doc(d.page_id), d.blocks.seq());
    lemma_fold_blocks_wf(d.page_id, d.blocks.seq());
    lemma_fold_children_keys(b.children, d.meta.children_map.seq());
    match d.meta.text_map {
        Some(t) => lemma_fold_texts_parse(t.seq()),
        None => {},
    }
    let v = spec_create_with_data(d);
    assert forall|k: Seq<char>| #[trigger] v.blocks.contains_key(k) implies v.blocks[k].id@ == k
        && v.children.contains_key(v.blocks[k].children@) by {
        assert(b.children.contains_key(b.blocks[k].children@));
    }
}

} // verus!
