use vstd::prelude::*;

use crate::document::{find_child, first_index, remove_first, slot_after};
use crate::rows::AnyValue;
use crate::strmap::StrMap;

verus! {

/// Key of the legacy workspace array.
pub const WORKSPACES: &'static str = "workspaces";

pub const WORKSPACE_ID: &'static str = "id";

pub const WORKSPACE_NAME: &'static str = "name";

pub const WORKSPACE_CREATED_AT: &'static str = "created_at";

/// A favorite view, as the legacy favorites list holds it.
#[derive(Debug)]
pub struct FavoriteId {
    pub id: String,
}

/// A record of the legacy favorites list.
#[derive(Debug)]
pub enum LegacyValue {
    /// A plain value, as JSON text.
    Any(String),
    /// A shared type; never a favorite.
    Other,
}

/// Key of the id member of a favorite record.
pub const FAVORITE_ID: &'static str = "id";

/// The string member `key` of the JSON object that `s` holds, if `s` is a
/// JSON object with such a member.
pub uninterp spec fn json_str_member(s: Seq<char>, key: Seq<char>) -> Option<Seq<char>>;

/// Relies on serde_json::from_str into a `serde_json::Value`: the string
/// member `key` of the JSON object in `json`, if there is one.
#[verifier::external_body]
fn parse_str_member(json: &String, key: &str) -> (r: Option<String>)
    ensures
        r is None <==> json_str_member(json@, key@) is None,
        r matches Some(v) ==> json_str_member(json@, key@) == Some(v@),
{
    match serde_json::from_str::<serde_json::Value>(json) {
        Ok(serde_json::Value::Object(members)) => match members.get(key) {
            Some(serde_json::Value::String(text)) => Some(text.clone()),
            _ => None,
        },
        _ => None,
    }
}

pub open spec fn favorite_of(v: LegacyValue) -> Option<Seq<char>> {
    match v {
        LegacyValue::Any(s) => json_str_member(s@, FAVORITE_ID@),
        LegacyValue::Other => None,
    }
}

/// The favorites that the legacy list holds, in order.
pub open spec fn favorites_of(s: Seq<LegacyValue>) -> Seq<Seq<char>>
    decreases s.len(),
{
    if s.len() == 0 {
        Seq::empty()
    } else {
        let rest = favorites_of(s.drop_last());
        match favorite_of(s.last()) {
            Some(id) => rest.push(id),
            None => rest,
        }
    }
}

/// A legacy workspace.
#[derive(Debug)]
pub struct Workspace {
    pub id: String,
    pub name: String,
    pub child_views: Vec<String>,
    pub created_at: i64,
}

/// A view of the folder tree.
#[derive(Debug)]
pub struct FolderView {
    pub id: String,
    /// The parent's id; empty for a root view.
    pub parent_view_id: String,
    pub name: String,
    pub created_at: i64,
}

/// What the folder holds: the views, the children of each view, and the
/// legacy data that migration reads.
pub struct Folder {
    pub views: StrMap<FolderView>,
    /// View id to the ids of its children, in order.
    pub relations: StrMap<Vec<String>>,
    /// Legacy favorites list, if present.
    pub favorites_v1: Option<Vec<LegacyValue>>,
    /// Legacy workspace records, if present: key to value each.
    pub workspaces: Option<Vec<StrMap<AnyValue>>>,
}

pub open spec fn children_of(rel: Map<Seq<char>, Vec<String>>, id: Seq<char>) -> Seq<String> {
    if rel.contains_key(id) {
        rel[id]@
    } else {
        Seq::empty()
    }
}

/// The string under `k`, if the value there is a string.
pub open spec fn str_field(m: Map<Seq<char>, AnyValue>, k: Seq<char>) -> Option<String> {
    if m.contains_key(k) && m[k] is Str {
        Some(m[k]->Str_0)
    } else {
        None
    }
}

pub open spec fn int_field(m: Map<Seq<char>, AnyValue>, k: Seq<char>) -> Option<i64> {
    if m.contains_key(k) && m[k] is BigInt {
        Some(m[k]->BigInt_0)
    } else {
        None
    }
}

fn get_str(m: &StrMap<AnyValue>, k: &String) -> (r: Option<String>)
    ensures
        r == str_field(m@, k@),
{
    match m.get(k) {
        Some(AnyValue::Str(s)) => Some(s.clone()),
        _ => None,
    }
}

fn get_i64(m: &StrMap<AnyValue>, k: &String) -> (r: Option<i64>)
    ensures
        r == int_field(m@, k@),
{
    match m.get(k) {
        Some(AnyValue::BigInt(i)) => Some(*i),
        _ => None,
    }
}

fn copy_ids(v: &Vec<String>) -> (r: Vec<String>)
    ensures
        r@ == v@,
{
    let mut r: Vec<String> = Vec::new();
    let mut i: usize = 0;
    while i < v.len()
        invariant
            i <= v@.len(),
            r@ == v@.subrange(0, i as int),
        decreases v@.len() - i,
    {
        r.push(v[i].clone());
        assert(v@.subrange(0, i + 1) =~= v@.subrange(0, i as int).push(v@[i as int]));
        i = i + 1;
    }
    assert(v@.subrange(0, v@.len() as int) =~= v@);
    r
}

/// A workspace read from a legacy record: it needs an id; the name defaults
/// to empty, the creation time to 0, and the children come from the view
/// relations.
pub fn to_workspace_with_txn(map: &StrMap<AnyValue>, views: &StrMap<Vec<String>>) -> (r: Option<
    Workspace,
>)
    ensures
        str_field(map@, WORKSPACE_ID@) is None ==> r is None,
        str_field(map@, WORKSPACE_ID@) matches Some(id) ==> (r matches Some(w) && w.id == id
            && w.name@ == (match str_field(map@, WORKSPACE_NAME@) {
            Some(n) => n@,
            None => Seq::<char>::empty(),
        }) && w.created_at == (match int_field(map@, WORKSPACE_CREATED_AT@) {
            Some(c) => c,
            None => 0,
        }) && w.child_views@ == children_of(views@, id@)),
{
    let id = match get_str(map, &String::from_str(WORKSPACE_ID)) {
        Some(id) => id,
        None => return None,
    };
    let name = match get_str(map, &String::from_str(WORKSPACE_NAME)) {
        Some(n) => n,
        None => String::new(),
    };
    let created_at = match get_i64(map, &String::from_str(WORKSPACE_CREATED_AT)) {
        Some(c) => c,
        None => 0,
    };
    let child_views = match views.get(&id) {
        Some(v) => copy_ids(v),
        None => Vec::new(),
    };
    Some(Workspace { id, name, child_views, created_at })
}

impl Folder {
    /// The favorites of the legacy list, in order; records that are not a
    /// favorite are skipped.
    pub fn get_favorite_v1(&self) -> (r: Vec<FavoriteId>)
        ensures
            self.favorites_v1 is None ==> r@.len() == 0,
            self.favorites_v1 matches Some(v) ==> r@.map_values(|f: FavoriteId| f.id@)
                == favorites_of(v@),
    {
        let mut out: Vec<FavoriteId> = Vec::new();
        match &self.favorites_v1 {
            None => {},
            Some(records) => {
                let mut i: usize = 0;
                while i < records.len()
                    invariant
                        i <= records@.len(),
                        out@.map_values(|f: FavoriteId| f.id@) == favorites_of(
                            records@.subrange(0, i as int),
                        ),
                    decreases records@.len() - i,
                {
                    let ghost o0 = out@;
                    match &records[i] {
                        LegacyValue::Any(json) => match parse_str_member(json, FAVORITE_ID) {
                            Some(id) => {
                                out.push(FavoriteId { id });
                            },
                            None => {},
                        },
                        LegacyValue::Other => {},
                    }
                    proof {
                        assert(records@.subrange(0, i + 1).drop_last() =~= records@.subrange(
                            0,
                            i as int,
                        ));
                        assert(out@.map_values(|f: FavoriteId| f.id@) =~= favorites_of(
                            records@.subrange(0, i + 1),
                        ));
                    }
                    i = i + 1;
                }
                assert(records@.subrange(0, records@.len() as int) =~= records@);
            },
        }
        out
    }

    /// Folds the last legacy workspace into the view tree as a root view with
    /// its children; the legacy data stays. `None` when there is no legacy
    /// workspace list.
    pub fn migrate_workspace_to_view(&mut self) -> (r: Option<()>)
        ensures
            old(self).workspaces is None ==> r is None && final(self).views@ == old(self).views@
                && final(self).relations@ == old(self).relations@,
            old(self).workspaces is Some ==> r is Some,
            final(self).favorites_v1 == old(self).favorites_v1,
            final(self).workspaces == old(self).workspaces,
            old(self).workspaces matches Some(ws) ==> {
                let found = exists|i: int|
                    0 <= i < ws@.len() && (#[trigger] str_field(ws@[i]@, WORKSPACE_ID@)) is Some;
                &&& !found ==> final(self).views@ == old(self).views@ && final(self).relations@
                    == old(self).relations@
                &&& found ==> exists|i: int|
                    0 <= i < ws@.len() && (#[trigger] str_field(ws@[i]@, WORKSPACE_ID@)) is Some && (
                    forall|j: int|
                        i < j < ws@.len() ==> (#[trigger] str_field(ws@[j]@, WORKSPACE_ID@)) is None)
                        && migrated(*old(self), ws@[i]@, *final(self))
            },
    {
        let ws = match &self.workspaces {
            None => return None,
            Some(ws) => ws,
        };
        let mut last: Option<Workspace> = None;
        let ghost mut at: int = -1;
        let mut i: usize = 0;
        while i < ws.len()
            invariant
                i <= ws@.len(),
                -1 <= at < i,
                last is None <==> at == -1,
                at == -1 ==> forall|j: int| 0 <= j < i ==> (#[trigger] str_field(ws@[j]@, WORKSPACE_ID@)) is None,
                at >= 0 ==> (str_field(ws@[at]@, WORKSPACE_ID@) matches Some(id) && (last matches Some(w)
                    && w.id == id && w.name@ == ws_name(ws@[at]@) && w.created_at == ws_created(ws@[at]@)
                    && w.child_views@ == children_of(self.relations@, id@))) && forall|j: int|
                    at < j < i ==> (#[trigger] str_field(ws@[j]@, WORKSPACE_ID@)) is None,
            decreases ws@.len() - i,
        {
            match to_workspace_with_txn(&ws[i], &self.relations) {
                Some(w) => {
                    last = Some(w);
                    proof {
                        at = i as int;
                    }
                },
                None => {},
            }
            i = i + 1;
        }
        match last {
            None => Some(()),
            Some(w) => {
                let view = FolderView {
                    id: w.id.clone(),
                    parent_view_id: String::new(),
                    name: w.name,
                    created_at: w.created_at,
                };
                let ghost wid = w.id;
                let ghost cv = w.child_views@;
                self.views.insert(w.id.clone(), view);
                self.relations.insert(w.id, w.child_views);
                proof {
                    assert(lists_of(self.relations@) =~= lists_of(old(self).relations@).insert(wid@, cv));
                    assert(self.views@.remove(wid@) =~= old(self).views@.remove(wid@));
                }
                Some(())
            },
        }
    }
}

/// The name of a legacy workspace: its string `name`, or empty.
pub open spec fn ws_name(m: Map<Seq<char>, AnyValue>) -> Seq<char> {
    match str_field(m, WORKSPACE_NAME@) {
        Some(n) => n@,
        None => Seq::<char>::empty(),
    }
}

/// The creation time of a legacy workspace: its integer `created_at`, or 0.
pub open spec fn ws_created(m: Map<Seq<char>, AnyValue>) -> i64 {
    match int_field(m, WORKSPACE_CREATED_AT@) {
        Some(c) => c,
        None => 0,
    }
}

/// `f1` is `f0` with the workspace `m` added as a root view: its id, name and
/// creation time, its children as the relations give them; nothing else changes.
pub open spec fn migrated(f0: Folder, m: Map<Seq<char>, AnyValue>, f1: Folder) -> bool {
    let id = str_field(m, WORKSPACE_ID@)->Some_0;
    &&& f1.views@.contains_key(id@)
    &&& f1.views@[id@].id == id
    &&& f1.views@[id@].parent_view_id@ == Seq::<char>::empty()
    &&& f1.views@[id@].name@ == ws_name(m)
    &&& f1.views@[id@].created_at == ws_created(m)
    &&& f1.views@.remove(id@) == f0.views@.remove(id@)
    &&& lists_of(f1.relations@) == lists_of(f0.relations@).insert(id@, children_of(f0.relations@, id@))
}

/// Children lists after `id` moves under `parent`, after `prev`: it leaves
/// its old parent's list first.
pub open spec fn relations_after_move(
    rel: Map<Seq<char>, Vec<String>>,
    old_parent: Seq<char>,
    id: String,
    parent: Seq<char>,
    prev: Option<String>,
) -> Map<Seq<char>, Seq<String>> {
    let lists = rel.map_values(|v: Vec<String>| v@);
    let l1 = lists.insert(old_parent, remove_first(children_of(rel, old_parent), id@));
    let nl = if l1.contains_key(parent) {
        l1[parent]
    } else {
        Seq::empty()
    };
    l1.insert(parent, nl.insert(slot_after(nl, prev), id))
}

pub open spec fn lists_of(rel: Map<Seq<char>, Vec<String>>) -> Map<Seq<char>, Seq<String>> {
    rel.map_values(|v: Vec<String>| v@)
}

impl Folder {
    fn children(&self, id: &String) -> (r: Vec<String>)
        ensures
            r@ == children_of(self.relations@, id@),
    {
        match self.relations.get(id) {
            Some(v) => copy_ids(v),
            None => Vec::new(),
        }
    }

    fn set_children(&mut self, id: String, list: Vec<String>)
        ensures
            lists_of(final(self).relations@) == lists_of(old(self).relations@).insert(id@, list@),
            final(self).views@ == old(self).views@,
            final(self).favorites_v1 == old(self).favorites_v1,
            final(self).workspaces == old(self).workspaces,
    {
        let ghost k = id@;
        let ghost l = list@;
        self.relations.insert(id, list);
        assert(lists_of(self.relations@) =~= lists_of(old(self).relations@).insert(k, l));
    }

    /// Adds a view and puts it among its parent's children at `index`, or last
    /// when no index is given or the index is past the end.
    pub fn insert_view(&mut self, view: FolderView, index: Option<usize>)
        ensures
            final(self).views@ == old(self).views@.insert(view.id@, view),
            ({
                let l = children_of(old(self).relations@, view.parent_view_id@);
                let at = match index {
                    Some(i) => if i <= l.len() {
                        i as int
                    } else {
                        l.len() as int
                    },
                    None => l.len() as int,
                };
                lists_of(final(self).relations@) == lists_of(old(self).relations@).insert(
                    view.parent_view_id@,
                    l.insert(at, view.id),
                )
            }),
    {
        let mut list = self.children(&view.parent_view_id);
        let at = match index {
            Some(i) => if i <= list.len() {
                i
            } else {
                list.len()
            },
            None => list.len(),
        };
        list.insert(at, view.id.clone());
        self.set_children(view.parent_view_id.clone(), list);
        self.views.insert(view.id.clone(), view);
    }

    /// Moves view `view_id` under `new_parent_id`, right after `prev_view_id`
    /// or first. `None` when the view is missing.
    pub fn move_nested_view(
        &mut self,
        view_id: &String,
        new_parent_id: &String,
        prev_view_id: Option<String>,
    ) -> (r: Option<()>)
        ensures
            !old(self).views@.contains_key(view_id@) ==> r is None && final(self).views@ == old(
                self,
            ).views@ && final(self).relations@ == old(self).relations@,
            old(self).views@.contains_key(view_id@) ==> {
                let v = old(self).views@[view_id@];
                &&& r is Some
                &&& final(self).views@ == old(self).views@.insert(
                    view_id@,
                    FolderView { parent_view_id: *new_parent_id, ..v },
                )
                &&& lists_of(final(self).relations@) == relations_after_move(
                    old(self).relations@,
                    v.parent_view_id@,
                    *view_id,
                    new_parent_id@,
                    prev_view_id,
                )
            },
    {
        let view = match self.views.get(view_id) {
            None => return None,
            Some(v) => FolderView {
                id: v.id.clone(),
                parent_view_id: v.parent_view_id.clone(),
                name: v.name.clone(),
                created_at: v.created_at,
            },
        };
        let mut old_list = self.children(&view.parent_view_id);
        match find_child(&old_list, view_id) {
            Some(i) => {
                old_list.remove(i);
            },
            None => {},
        }
        self.set_children(view.parent_view_id.clone(), old_list);
        let mut new_list = self.children(new_parent_id);
        let idx: usize = match &prev_view_id {
            Some(p) => match find_child(&new_list, p) {
                Some(i) => i + 1,
                None => 0,
            },
            None => 0,
        };
        new_list.insert(idx, view_id.clone());
        self.set_children(new_parent_id.clone(), new_list);
        let moved = FolderView { parent_view_id: new_parent_id.clone(), ..view };
        self.views.insert(view_id.clone(), moved);
        Some(())
    }

    /// The children of a view, in order.
    pub fn get_children(&self, view_id: &String) -> (r: Vec<String>)
        ensures
            r@ == children_of(self.relations@, view_id@),
    {
        self.children(view_id)
    }
}

} // verus!
