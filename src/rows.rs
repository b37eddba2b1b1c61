use vstd::prelude::*;

use crate::strmap::{entries_map, keys_unique, StrMap};

verus! {

/// Key of a cell's creation time.
pub const CREATED_AT: &'static str = "created_at";

/// Key of a cell's last modification time.
pub const LAST_MODIFIED: &'static str = "last_modified";

/// Key of a cell's field type.
pub const FIELD_TYPE: &'static str = "field_type";

/// Default height of a row.
pub const DEFAULT_ROW_HEIGHT: i32 = 60;

/// A value in a cell.
#[derive(Debug)]
pub enum AnyValue {
    Null,
    Bool(bool),
    BigInt(i64),
    Str(String),
}

impl AnyValue {
    pub fn copy(&self) -> (r: AnyValue)
        ensures
            r == *self,
    {
        match self {
            AnyValue::Null => AnyValue::Null,
            AnyValue::Bool(b) => AnyValue::Bool(*b),
            AnyValue::BigInt(i) => AnyValue::BigInt(*i),
            AnyValue::Str(s) => AnyValue::Str(s.clone()),
        }
    }
}

/// A cell: key to value, including its `created_at` and `last_modified`.
pub type Cell = StrMap<AnyValue>;

pub fn copy_cell(c: &Cell) -> (r: Cell)
    ensures
        r@ == c@,
{
    let n = c.len();
    let mut r: Cell = StrMap::new();
    let mut i: usize = 0;
    while i < n
        invariant
            n == c.seq().len(),
            i <= n,
            c@ == entries_map(c.seq()),
            r@ == entries_map(c.seq().subrange(0, i as int)),
        decreases n - i,
    {
        r.insert(c.key_at(i).clone(), c.value_at(i).copy());
        proof {
            assert(c.seq().subrange(0, i + 1).drop_last() =~= c.seq().subrange(0, i as int));
        }
        i = i + 1;
    }
    assert(c.seq().subrange(0, n as int) =~= c.seq());
    r
}

pub open spec fn cells_view(m: Map<Seq<char>, Cell>) -> Map<Seq<char>, Map<Seq<char>, AnyValue>> {
    m.map_values(|c: Cell| c@)
}

/// The cells of a row, keyed by field id.
pub struct Cells(pub StrMap<Cell>);

impl Cells {
    pub open spec fn view(&self) -> Map<Seq<char>, Map<Seq<char>, AnyValue>> {
        cells_view(self.0@)
    }

    pub fn new() -> (r: Cells)
        ensures
            r.view() == Map::<Seq<char>, Map<Seq<char>, AnyValue>>::empty(),
    {
        let r = Cells(StrMap::new());
        assert(r.view() =~= Map::<Seq<char>, Map<Seq<char>, AnyValue>>::empty());
        r
    }

    pub fn into_inner(self) -> (r: StrMap<Cell>)
        ensures
            r == self.0,
    {
        self.0
    }

    /// The cell of a field.
    pub fn cell_for_field_id(&self, field_id: &String) -> (r: Option<&Cell>)
        ensures
            r is None <==> !self.view().contains_key(field_id@),
            r matches Some(c) ==> c@ == self.view()[field_id@],
    {
        self.0.get(field_id)
    }

    pub fn copy(&self) -> (r: Cells)
        ensures
            r.view() == self.view(),
    {
        let n = self.0.len();
        let mut r: StrMap<Cell> = StrMap::new();
        let mut i: usize = 0;
        while i < n
            invariant
                n == self.0.seq().len(),
                i <= n,
                keys_unique(self.0.seq()),
                self.0@ == entries_map(self.0.seq()),
                cells_view(r@) == cells_view(entries_map(self.0.seq().subrange(0, i as int))),
            decreases n - i,
        {
            let k = self.0.key_at(i).clone();
            let v = copy_cell(self.0.value_at(i));
            let ghost before = r@;
            let ghost vv = v@;
            let ghost vval = v;
            r.insert(k, v);
            proof {
                let s = self.0.seq();
                assert(s.subrange(0, i + 1).drop_last() =~= s.subrange(0, i as int));
                let prev = entries_map(s.subrange(0, i as int));
                assert(entries_map(s.subrange(0, i + 1)) == prev.insert(s[i as int].0@, s[i as int].1));
                assert(cells_view(before).dom() == cells_view(prev).dom());
                assert(cells_view(prev.insert(s[i as int].0@, s[i as int].1)) =~= cells_view(prev).insert(
                    s[i as int].0@,
                    s[i as int].1@,
                ));
                assert(cells_view(before.insert(s[i as int].0@, vval)) =~= cells_view(before).insert(
                    s[i as int].0@,
                    vv,
                ));
                assert(cells_view(r@) =~= cells_view(entries_map(s.subrange(0, i + 1))));
            }
            i = i + 1;
        }
        assert(self.0.seq().subrange(0, n as int) =~= self.0.seq());
        Cells(r)
    }
}

/// The `created_at` of a cell after a write at `now`: the first write sets it,
/// later writes keep it.
pub open spec fn created_after(old_cell: Map<Seq<char>, AnyValue>, now: i64) -> AnyValue {
    if old_cell.contains_key(CREATED_AT@) {
        old_cell[CREATED_AT@]
    } else {
        AnyValue::BigInt(now)
    }
}

/// The `last_modified` of a cell after a write at `now`: `now`, or one more
/// than the previous stamp when `now` is not later than it (the largest time
/// stays the largest).
pub open spec fn modified_after(old_cell: Map<Seq<char>, AnyValue>, now: i64) -> i64 {
    if old_cell.contains_key(LAST_MODIFIED@) && old_cell[LAST_MODIFIED@] is BigInt
        && old_cell[LAST_MODIFIED@]->BigInt_0 >= now {
        if old_cell[LAST_MODIFIED@]->BigInt_0 < i64::MAX {
            (old_cell[LAST_MODIFIED@]->BigInt_0 + 1) as i64
        } else {
            i64::MAX
        }
    } else {
        now
    }
}

/// The cell after a write at time `now`: the written keys replace the old
/// ones, except that `created_at` keeps the value of the first write and
/// `last_modified` moves past its previous value.
pub open spec fn cell_after_write(
    old_cell: Map<Seq<char>, AnyValue>,
    written: Map<Seq<char>, AnyValue>,
    now: i64,
) -> Map<Seq<char>, AnyValue> {
    old_cell.union_prefer_right(written).insert(CREATED_AT@, created_after(old_cell, now)).insert(
        LAST_MODIFIED@,
        AnyValue::BigInt(modified_after(old_cell, now)),
    )
}

pub open spec fn cell_or_empty(cells: Map<Seq<char>, Map<Seq<char>, AnyValue>>, k: Seq<char>) -> Map<
    Seq<char>,
    AnyValue,
> {
    if cells.contains_key(k) {
        cells[k]
    } else {
        Map::empty()
    }
}

/// Writes cells of a row at one time.
pub struct CellsUpdate {
    pub cells: Cells,
    /// Time of the writes, in milliseconds.
    pub now: i64,
}

impl CellsUpdate {
    pub fn new(cells: Cells, now: i64) -> (r: CellsUpdate)
        ensures
            r.cells.view() == cells.view(),
            r.now == now,
    {
        CellsUpdate { cells, now }
    }

    /// Writes `cell` into the cell of field `key`, creating it if needed.
    pub fn insert_cell(self, key: &String, cell: Cell) -> (r: CellsUpdate)
        ensures
            r.now == self.now,
            r.cells.view() == self.cells.view().insert(
                key@,
                cell_after_write(cell_or_empty(self.cells.view(), key@), cell@, self.now),
            ),
    {
        let CellsUpdate { cells, now } = self;
        let mut map = cells.0;
        let mut target: Cell = match map.remove(key) {
            Some(c) => c,
            None => StrMap::new(),
        };
        let ghost old_cell = target@;
        assert(old_cell == cell_or_empty(cells_view(cells.0@), key@));
        let created_key = String::from_str(CREATED_AT);
        let modified_key = String::from_str(LAST_MODIFIED);
        let created = match target.get(&created_key) {
            Some(v) => v.copy(),
            None => AnyValue::BigInt(now),
        };
        let modified: i64 = match target.get(&modified_key) {
            Some(AnyValue::BigInt(p)) => if *p >= now {
                if *p < i64::MAX {
                    *p + 1
                } else {
                    i64::MAX
                }
            } else {
                now
            },
            _ => now,
        };
        assert(created == created_after(old_cell, now));
        assert(modified == modified_after(old_cell, now));
        let ghost stamped = target@;
        let n = cell.len();
        let mut i: usize = 0;
        while i < n
            invariant
                n == cell.seq().len(),
                i <= n,
                cell@ == entries_map(cell.seq()),
                target@ == stamped.union_prefer_right(entries_map(cell.seq().subrange(0, i as int))),
            decreases n - i,
        {
            target.insert(cell.key_at(i).clone(), cell.value_at(i).copy());
            proof {
                let s = cell.seq();
                assert(s.subrange(0, i + 1).drop_last() =~= s.subrange(0, i as int));
                assert(target@ =~= stamped.union_prefer_right(entries_map(s.subrange(0, i + 1))));
            }
            i = i + 1;
        }
        assert(cell.seq().subrange(0, n as int) =~= cell.seq());
        target.insert(created_key, created);
        target.insert(modified_key, AnyValue::BigInt(modified));
        let ghost tv = target@;
        let ghost mv = map@;
        map.insert(key.clone(), target);
        proof {
            assert(cells_view(map@) =~= cells_view(cells.0@).insert(key@, tv));
        }
        CellsUpdate { cells: Cells(map), now }
    }

    /// Writes `value` into the cell of field `key`.
    pub fn insert(self, key: &String, value: Cell) -> (r: CellsUpdate)
        ensures
            r.now == self.now,
            r.cells.view() == self.cells.view().insert(
                key@,
                cell_after_write(cell_or_empty(self.cells.view(), key@), value@, self.now),
            ),
    {
        self.insert_cell(key, value)
    }

    pub fn into_cells(self) -> (r: Cells)
        ensures
            r.view() == self.cells.view(),
    {
        self.cells
    }
}

/// Each write makes `last_modified` of the cell strictly larger than before,
/// whatever the write's time; `created_at` stays as the first write set it,
/// whatever the written keys hold.
pub proof fn lemma_cell_write_stamps(
    old_cell: Map<Seq<char>, AnyValue>,
    written: Map<Seq<char>, AnyValue>,
    prev: i64,
    now: i64,
)
    requires
        old_cell.contains_key(LAST_MODIFIED@),
        old_cell[LAST_MODIFIED@] == AnyValue::BigInt(prev),
        prev < i64::MAX,
    ensures
        cell_after_write(old_cell, written, now)[LAST_MODIFIED@] is BigInt,
        cell_after_write(old_cell, written, now)[LAST_MODIFIED@]->BigInt_0 > prev,
        old_cell.contains_key(CREATED_AT@) ==> cell_after_write(old_cell, written, now)[CREATED_AT@]
            == old_cell[CREATED_AT@],
        !old_cell.contains_key(CREATED_AT@) ==> cell_after_write(old_cell, written, now)[CREATED_AT@]
            == AnyValue::BigInt(now),
{
    reveal_strlit("created_at");
    reveal_strlit("last_modified");
    assert(CREATED_AT@[0] != LAST_MODIFIED@[0]);
}

/// The field type stored in a cell.
pub fn get_field_type_from_cell(cell: &Cell) -> (r: Option<i64>)
    ensures
        r matches Some(t) ==> cell@.contains_key(FIELD_TYPE@) && cell@[FIELD_TYPE@] == AnyValue::BigInt(t),
        r is None <==> !(cell@.contains_key(FIELD_TYPE@) && cell@[FIELD_TYPE@] is BigInt),
{
    match cell.get(&String::from_str(FIELD_TYPE)) {
        Some(AnyValue::BigInt(t)) => Some(*t),
        _ => None,
    }
}

/// A new cell that holds only its field type.
pub fn new_cell_builder(field_type: i64) -> (r: Cell)
    ensures
        r@ == Map::<Seq<char>, AnyValue>::empty().insert(FIELD_TYPE@, AnyValue::BigInt(field_type)),
{
    let mut c: Cell = StrMap::new();
    c.insert(String::from_str(FIELD_TYPE), AnyValue::BigInt(field_type));
    c
}

/// A row's cell for one field; empty when nothing was written to it.
pub struct RowCell {
    pub row_id: String,
    pub cell: Option<Cell>,
}

impl RowCell {
    pub fn new(row_id: String, cell: Option<Cell>) -> (r: RowCell)
        ensures
            r.row_id == row_id,
            r.cell == cell,
    {
        RowCell { row_id, cell }
    }
}

/// Icon and cover of a row.
#[derive(Debug)]
pub struct RowMeta {
    pub icon_url: Option<String>,
    pub cover_url: Option<String>,
}

fn copy_opt(s: &Option<String>) -> (r: Option<String>)
    ensures
        r == *s,
{
    match s {
        Some(v) => Some(v.clone()),
        None => None,
    }
}

impl RowMeta {
    pub fn copy(&self) -> (r: RowMeta)
        ensures
            r == *self,
    {
        RowMeta { icon_url: copy_opt(&self.icon_url), cover_url: copy_opt(&self.cover_url) }
    }

    pub fn empty() -> (r: RowMeta)
        ensures
            r.icon_url is None,
            r.cover_url is None,
    {
        RowMeta { icon_url: None, cover_url: None }
    }
}

/// A row of a database.
pub struct Row {
    pub id: String,
    pub cells: Cells,
    pub height: i32,
    pub visibility: bool,
    pub created_at: i64,
    pub meta: RowMeta,
}

/// What a row holds.
pub struct RowView {
    pub id: Seq<char>,
    pub cells: Map<Seq<char>, Map<Seq<char>, AnyValue>>,
    pub height: i32,
    pub visibility: bool,
    pub created_at: i64,
    pub icon_url: Option<String>,
    pub cover_url: Option<String>,
}

impl Row {
    pub open spec fn view(&self) -> RowView {
        RowView {
            id: self.id@,
            cells: self.cells.view(),
            height: self.height,
            visibility: self.visibility,
            created_at: self.created_at,
            icon_url: self.meta.icon_url,
            cover_url: self.meta.cover_url,
        }
    }

    /// A row with no cells.
    pub fn empty(id: String) -> (r: Row)
        ensures
            r.view() == empty_row(id@),
    {
        Row {
            id,
            cells: Cells::new(),
            height: DEFAULT_ROW_HEIGHT,
            visibility: true,
            created_at: 0,
            meta: RowMeta::empty(),
        }
    }

    pub fn copy(&self) -> (r: Row)
        ensures
            r.view() == self.view(),
    {
        Row {
            id: self.id.clone(),
            cells: self.cells.copy(),
            height: self.height,
            visibility: self.visibility,
            created_at: self.created_at,
            meta: self.meta.copy(),
        }
    }
}

pub open spec fn empty_row(id: Seq<char>) -> RowView {
    RowView {
        id,
        cells: Map::empty(),
        height: DEFAULT_ROW_HEIGHT,
        visibility: true,
        created_at: 0,
        icon_url: None,
        cover_url: None,
    }
}

/// Where a row stands in a view.
#[derive(Debug)]
pub struct RowOrder {
    pub id: String,
    pub height: i32,
}

} // verus!
