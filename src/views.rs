use vstd::prelude::*;

use crate::layout::DatabaseLayout;
use crate::rows::RowOrder;
use crate::strmap::StrMap;

verus! {

/// A filter of a database view.
#[derive(Debug)]
pub struct Filter {
    pub id: String,
    pub field_id: String,
    pub condition: i64,
    pub content: String,
}

impl Filter {
    pub fn copy(&self) -> (r: Filter)
        ensures
            r == *self,
    {
        Filter {
            id: self.id.clone(),
            field_id: self.field_id.clone(),
            condition: self.condition,
            content: self.content.clone(),
        }
    }
}

/// A view of a database: its layout, filters, and the order of its rows and
/// fields.
pub struct DatabaseView {
    pub id: String,
    pub name: String,
    pub layout: DatabaseLayout,
    pub filters: Vec<Filter>,
    pub row_orders: Vec<RowOrder>,
    pub field_orders: Vec<String>,
}

/// What a view holds, as far as its contracts go.
pub struct ViewShape {
    pub id: Seq<char>,
    pub name: Seq<char>,
    pub layout: DatabaseLayout,
    pub filters: Seq<Filter>,
    pub rows: Seq<(Seq<char>, i32)>,
    pub fields: Seq<String>,
}

impl DatabaseView {
    pub open spec fn shape(&self) -> ViewShape {
        ViewShape {
            id: self.id@,
            name: self.name@,
            layout: self.layout,
            filters: self.filters@,
            rows: self.row_orders@.map_values(|o: RowOrder| (o.id@, o.height)),
            fields: self.field_orders@,
        }
    }

    /// A copy of the view under a new id, with copies of all its parts.
    pub fn duplicate(&self, new_id: String) -> (r: DatabaseView)
        ensures
            r.shape() == (ViewShape { id: new_id@, ..self.shape() }),
    {
        let mut filters: Vec<Filter> = Vec::new();
        let mut i: usize = 0;
        while i < self.filters.len()
            invariant
                i <= self.filters@.len(),
                filters@ == self.filters@.subrange(0, i as int),
            decreases self.filters@.len() - i,
        {
            filters.push(self.filters[i].copy());
            assert(self.filters@.subrange(0, i + 1) =~= self.filters@.subrange(0, i as int).push(
                self.filters@[i as int],
            ));
            i = i + 1;
        }
        assert(self.filters@.subrange(0, self.filters@.len() as int) =~= self.filters@);
        let mut rows: Vec<RowOrder> = Vec::new();
        let mut j: usize = 0;
        while j < self.row_orders.len()
            invariant
                j <= self.row_orders@.len(),
                rows@.map_values(|o: RowOrder| (o.id@, o.height)) == self.row_orders@.subrange(
                    0,
                    j as int,
                ).map_values(|o: RowOrder| (o.id@, o.height)),
            decreases self.row_orders@.len() - j,
        {
            let ghost r0 = rows@;
            let o = RowOrder { id: self.row_orders[j].id.clone(), height: self.row_orders[j].height };
            let ghost ov = (o.id@, o.height);
            rows.push(o);
            assert(self.row_orders@.subrange(0, j + 1) =~= self.row_orders@.subrange(0, j as int).push(
                self.row_orders@[j as int],
            ));
            assert(rows@.map_values(|o: RowOrder| (o.id@, o.height)) =~= r0.map_values(
                |o: RowOrder| (o.id@, o.height),
            ).push(ov));
            assert(rows@.map_values(|o: RowOrder| (o.id@, o.height)) =~= self.row_orders@.subrange(
                0,
                j + 1,
            ).map_values(|o: RowOrder| (o.id@, o.height)));
            j = j + 1;
        }
        assert(self.row_orders@.subrange(0, self.row_orders@.len() as int) =~= self.row_orders@);
        let mut fields: Vec<String> = Vec::new();
        let mut k: usize = 0;
        while k < self.field_orders.len()
            invariant
                k <= self.field_orders@.len(),
                fields@ == self.field_orders@.subrange(0, k as int),
            decreases self.field_orders@.len() - k,
        {
            fields.push(self.field_orders[k].clone());
            assert(self.field_orders@.subrange(0, k + 1) =~= self.field_orders@.subrange(
                0,
                k as int,
            ).push(self.field_orders@[k as int]));
            k = k + 1;
        }
        assert(self.field_orders@.subrange(0, self.field_orders@.len() as int) =~= self.field_orders@);
        DatabaseView {
            id: new_id,
            name: self.name.clone(),
            layout: self.layout,
            filters,
            row_orders: rows,
            field_orders: fields,
        }
    }
}

/// The views of a database, by id.
pub struct DatabaseViews {
    pub views: StrMap<DatabaseView>,
}

pub open spec fn shapes(m: Map<Seq<char>, DatabaseView>) -> Map<Seq<char>, ViewShape> {
    m.map_values(|v: DatabaseView| v.shape())
}

impl DatabaseViews {
    pub fn new() -> (r: DatabaseViews)
        ensures
            r.views@ == Map::<Seq<char>, DatabaseView>::empty(),
    {
        DatabaseViews { views: StrMap::new() }
    }

    /// Adds a view, replacing one with the same id.
    pub fn create_view(&mut self, view: DatabaseView)
        ensures
            final(self).views@ == old(self).views@.insert(view.id@, view),
    {
        self.views.insert(view.id.clone(), view);
    }

    /// Appends `filter` to the filters of view `view_id`; false when there is
    /// no such view.
    pub fn insert_filter(&mut self, view_id: &String, filter: Filter) -> (r: bool)
        ensures
            r == old(self).views@.contains_key(view_id@),
            !r ==> shapes(final(self).views@) == shapes(old(self).views@),
            r ==> shapes(final(self).views@) == shapes(old(self).views@).insert(
                view_id@,
                ViewShape {
                    filters: old(self).views@[view_id@].shape().filters.push(filter),
                    ..old(self).views@[view_id@].shape()
                },
            ),
    {
        match self.views.remove(view_id) {
            None => {
                assert(shapes(self.views@) =~= shapes(old(self).views@));
                false
            },
            Some(mut v) => {
                let ghost sv = v.shape();
                v.filters.push(filter);
                let ghost nv = v.shape();
                self.views.insert(view_id.clone(), v);
                assert(shapes(self.views@) =~= shapes(old(self).views@).insert(view_id@, nv));
                true
            },
        }
    }

    /// Sets the layout of view `view_id`; false when there is no such view.
    pub fn update_layout(&mut self, view_id: &String, layout: DatabaseLayout) -> (r: bool)
        ensures
            r == old(self).views@.contains_key(view_id@),
            !r ==> shapes(final(self).views@) == shapes(old(self).views@),
            r ==> shapes(final(self).views@) == shapes(old(self).views@).insert(
                view_id@,
                ViewShape { layout, ..old(self).views@[view_id@].shape() },
            ),
    {
        match self.views.remove(view_id) {
            None => {
                assert(shapes(self.views@) =~= shapes(old(self).views@));
                false
            },
            Some(mut v) => {
                v.layout = layout;
                let ghost nv = v.shape();
                self.views.insert(view_id.clone(), v);
                assert(shapes(self.views@) =~= shapes(old(self).views@).insert(view_id@, nv));
                true
            },
        }
    }

    /// Adds a copy of view `view_id` under `new_id`; false when there is no
    /// such view.
    pub fn duplicate_view(&mut self, view_id: &String, new_id: String) -> (r: bool)
        ensures
            r == old(self).views@.contains_key(view_id@),
            !r ==> shapes(final(self).views@) == shapes(old(self).views@),
            r ==> shapes(final(self).views@) == shapes(old(self).views@).insert(
                new_id@,
                ViewShape { id: new_id@, ..old(self).views@[view_id@].shape() },
            ),
    {
        let copy = match self.views.get(view_id) {
            None => return false,
            Some(v) => v.duplicate(new_id),
        };
        let ghost nv = copy.shape();
        let ghost k = copy.id@;
        self.views.insert(copy.id.clone(), copy);
        assert(shapes(self.views@) =~= shapes(old(self).views@).insert(k, nv));
        true
    }

    /// The view `view_id`.
    pub fn get_view(&self, view_id: &String) -> (r: Option<&DatabaseView>)
        ensures
            r is None <==> !self.views@.contains_key(view_id@),
            r matches Some(v) ==> *v == self.views@[view_id@],
    {
        self.views.get(view_id)
    }
}

} // verus!
