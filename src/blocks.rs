use vstd::prelude::*;

use lru::LruCache;

use crate::rows::{Cell, CellsUpdate, Row, RowMeta, RowOrder, RowView, empty_row, cell_after_write, cell_or_empty, copy_cell};
use crate::strmap::StrMap;

verus! {

#[verifier::external_type_specification]
#[verifier::external_body]
#[verifier::reject_recursive_types(K)]
#[verifier::reject_recursive_types(V)]
#[verifier::reject_recursive_types(S)]
pub struct ExLruCache<K, V, S>(LruCache<K, V, S>);

#[verifier::external_type_specification]
#[verifier::external_body]
pub struct ExDefaultHasher(lru::DefaultHasher);

/// The entries of a row cache, most recently used first.
pub uninterp spec fn lru_entries(c: LruCache<String, Row>) -> Seq<(Seq<char>, Row)>;

/// The capacity a row cache was made with.
pub uninterp spec fn lru_capacity(c: LruCache<String, Row>) -> nat;

pub open spec fn has_key(e: Seq<(Seq<char>, Row)>, k: Seq<char>) -> bool {
    exists|i: int| 0 <= i < e.len() && (#[trigger] e[i]).0 == k
}

pub open spec fn key_index(e: Seq<(Seq<char>, Row)>, k: Seq<char>) -> int {
    choose|i: int| 0 <= i < e.len() && (#[trigger] e[i]).0 == k
}

/// The entries after `put(k, v)`: `k` moves to the front with its new value;
/// a new key at full capacity pushes out the least recently used entry.
pub open spec fn put_entries(e: Seq<(Seq<char>, Row)>, cap: nat, k: Seq<char>, v: Row) -> Seq<
    (Seq<char>, Row),
> {
    if has_key(e, k) {
        seq![(k, v)] + e.remove(key_index(e, k))
    } else if e.len() == cap {
        seq![(k, v)] + e.drop_last()
    } else {
        seq![(k, v)] + e
    }
}

/// Relies on lru::LruCache::new: an empty cache of the given capacity.
#[verifier::external_body]
fn lru_new(cap: usize) -> (r: LruCache<String, Row>)
    requires
        cap > 0,
    ensures
        lru_entries(r) == Seq::<(Seq<char>, Row)>::empty(),
        lru_capacity(r) == cap,
{
    LruCache::new(std::num::NonZeroUsize::new(cap).unwrap())
}

/// Relies on lru::LruCache::put: the key goes to the front with its value; a
/// new key in a full cache replaces the least recently used entry.
#[verifier::external_body]
fn lru_put(c: &mut LruCache<String, Row>, k: String, v: Row)
    ensures
        lru_capacity(*final(c)) == lru_capacity(*old(c)),
        lru_entries(*final(c)) == put_entries(lru_entries(*old(c)), lru_capacity(*old(c)), k@, v),
{
    c.put(k, v);
}

/// Relies on lru::LruCache::get: whether the key is cached; a cached key moves
/// to the front.
#[verifier::external_body]
fn lru_promote(c: &mut LruCache<String, Row>, k: &String) -> (r: bool)
    ensures
        lru_capacity(*final(c)) == lru_capacity(*old(c)),
        r == has_key(lru_entries(*old(c)), k@),
        r ==> lru_entries(*final(c)) == seq![lru_entries(*old(c))[key_index(lru_entries(*old(c)), k@)]]
            + lru_entries(*old(c)).remove(key_index(lru_entries(*old(c)), k@)),
        !r ==> lru_entries(*final(c)) == lru_entries(*old(c)),
{
    c.get(k).is_some()
}

/// Relies on lru::LruCache::peek: the value of a cached key, without changing
/// the order.
#[verifier::external_body]
fn lru_peek<'a>(c: &'a LruCache<String, Row>, k: &String) -> (r: Option<&'a Row>)
    ensures
        r is None <==> !has_key(lru_entries(*c), k@),
        r matches Some(v) ==> lru_entries(*c)[key_index(lru_entries(*c), k@)] == (k@, *v),
{
    c.peek(k)
}

/// Relies on lru::LruCache::pop: removes a key and its value.
#[verifier::external_body]
fn lru_pop(c: &mut LruCache<String, Row>, k: &String)
    ensures
        lru_capacity(*final(c)) == lru_capacity(*old(c)),
        has_key(lru_entries(*old(c)), k@) ==> lru_entries(*final(c)) == lru_entries(*old(c)).remove(
            key_index(lru_entries(*old(c)), k@),
        ),
        !has_key(lru_entries(*old(c)), k@) ==> lru_entries(*final(c)) == lru_entries(*old(c)),
{
    c.pop(k);
}

/// Relies on lru::LruCache::len: the number of cached entries.
#[verifier::external_body]
fn lru_len(c: &LruCache<String, Row>) -> (r: usize)
    ensures
        r == lru_entries(*c).len(),
{
    c.len()
}

/// Default number of rows a block keeps in memory.
pub const DEFAULT_ROW_CACHE_CAPACITY: usize = 1000;

/// Events of a block.
pub enum BlockEvent {
    /// The rows were fetched from the remote.
    DidFetchRow(Vec<Row>),
}

/// A request to fetch rows from the remote.
pub struct FetchTask {
    pub seq: u32,
    pub row_ids: Vec<String>,
}

/// A change to a cached row.
pub enum RowChange {
    Height(i32),
    Visibility(bool),
    /// Writes a cell of a field at time `now`.
    Cell { field_id: String, cell: Cell, now: i64 },
    /// Sets the icon and the cover; `None` leaves one as it is.
    Meta { icon_url: Option<String>, cover_url: Option<String> },
}

pub open spec fn change_row(r: RowView, c: RowChange) -> RowView {
    match c {
        RowChange::Height(h) => RowView { height: h, ..r },
        RowChange::Visibility(v) => RowView { visibility: v, ..r },
        RowChange::Cell { field_id, cell, now } => RowView {
            cells: r.cells.insert(
                field_id@,
                cell_after_write(cell_or_empty(r.cells, field_id@), cell@, now),
            ),
            ..r
        },
        RowChange::Meta { icon_url, cover_url } => RowView {
            icon_url: if icon_url is Some {
                icon_url
            } else {
                r.icon_url
            },
            cover_url: if cover_url is Some {
                cover_url
            } else {
                r.cover_url
            },
            ..r
        },
    }
}

pub open spec fn entries_view(e: Seq<(Seq<char>, Row)>) -> Seq<(Seq<char>, RowView)> {
    e.map_values(|p: (Seq<char>, Row)| (p.0, p.1.view()))
}

pub open spec fn rows_view(m: Map<Seq<char>, Row>) -> Map<Seq<char>, RowView> {
    m.map_values(|r: Row| r.view())
}

/// The ids of `ids` that are neither in `fetching` nor earlier in `ids`, in order.
pub open spec fn fresh_ids(fetching: Set<Seq<char>>, ids: Seq<Seq<char>>) -> Seq<Seq<char>>
    decreases ids.len(),
{
    if ids.len() == 0 {
        Seq::empty()
    } else {
        let r = fresh_ids(fetching, ids.drop_last());
        if fetching.contains(ids.last()) || r.contains(ids.last()) {
            r
        } else {
            r.push(ids.last())
        }
    }
}

/// Entries with distinct keys, each holding the row of its key.
pub open spec fn entries_ok(e: Seq<(Seq<char>, Row)>) -> bool {
    &&& forall|i: int, j: int| 0 <= i < j < e.len() ==> (#[trigger] e[i]).0 != (#[trigger] e[j]).0
    &&& forall|i: int| 0 <= i < e.len() ==> (#[trigger] e[i]).1.id@ == e[i].0
}

proof fn lemma_promote_ok(e: Seq<(Seq<char>, Row)>, ki: int)
    requires
        entries_ok(e),
        0 <= ki < e.len(),
    ensures
        entries_ok(seq![e[ki]] + e.remove(ki)),
{
    let n = seq![e[ki]] + e.remove(ki);
    assert forall|a: int, b: int| 0 <= a < b < n.len() implies (#[trigger] n[a]).0 != (
    #[trigger] n[b]).0 by {
        let b2 = if b - 1 < ki { b - 1 } else { b };
        assert(n[b] == e[b2]);
        if a > 0 {
            let a2 = if a - 1 < ki { a - 1 } else { a };
            assert(n[a] == e[a2]);
        }
    }
    assert forall|i: int| 0 <= i < n.len() implies (#[trigger] n[i]).1.id@ == n[i].0 by {
        if i > 0 {
            let i2 = if i - 1 < ki { i - 1 } else { i };
            assert(n[i] == e[i2]);
        }
    }
}

proof fn lemma_put_ok(e: Seq<(Seq<char>, Row)>, cap: nat, k: Seq<char>, row: Row)
    requires
        entries_ok(e),
        e.len() <= cap,
        cap > 0,
        row.id@ == k,
    ensures
        entries_ok(put_entries(e, cap, k, row)),
{
    let n = put_entries(e, cap, k, row);
    if has_key(e, k) {
        let ki = key_index(e, k);
        lemma_promote_ok(e, ki);
        assert forall|i: int| 0 <= i < n.len() implies (#[trigger] n[i]).1.id@ == n[i].0 by {
            if i > 0 {
                assert(n[i] == (seq![e[ki]] + e.remove(ki))[i]);
            }
        }
        assert forall|a: int, b: int| 0 <= a < b < n.len() implies (#[trigger] n[a]).0 != (
        #[trigger] n[b]).0 by {
            assert(n[b] == (seq![e[ki]] + e.remove(ki))[b]);
            if a > 0 {
                assert(n[a] == (seq![e[ki]] + e.remove(ki))[a]);
            }
        }
    } else {
        let rest = if e.len() == cap {
            e.drop_last()
        } else {
            e
        };
        assert(n == seq![(k, row)] + rest);
        assert forall|a: int, b: int| 0 <= a < b < n.len() implies (#[trigger] n[a]).0 != (
        #[trigger] n[b]).0 by {
            assert(n[b] == rest[b - 1]);
            assert(rest[b - 1] == e[b - 1]);
            if a > 0 {
                assert(n[a] == rest[a - 1]);
                assert(rest[a - 1] == e[a - 1]);
            }
        }
        assert forall|i: int| 0 <= i < n.len() implies (#[trigger] n[i]).1.id@ == n[i].0 by {
            if i > 0 {
                assert(n[i] == rest[i - 1]);
                assert(rest[i - 1] == e[i - 1]);
            }
        }
    }
}

proof fn lemma_remove_ok(e: Seq<(Seq<char>, Row)>, ki: int)
    requires
        entries_ok(e),
        0 <= ki < e.len(),
    ensures
        entries_ok(e.remove(ki)),
{
    let n = e.remove(ki);
    assert forall|a: int, b: int| 0 <= a < b < n.len() implies (#[trigger] n[a]).0 != (
    #[trigger] n[b]).0 by {
        let a2 = if a < ki { a } else { a + 1 };
        let b2 = if b < ki { b } else { b + 1 };
        assert(n[a] == e[a2]);
        assert(n[b] == e[b2]);
    }
    assert forall|i: int| 0 <= i < n.len() implies (#[trigger] n[i]).1.id@ == n[i].0 by {
        let i2 = if i < ki { i } else { i + 1 };
        assert(n[i] == e[i2]);
    }
}

/// The fetch sequence number after `s`: one more, wrapping to 0.
pub open spec fn next_seq_after(s: u32) -> u32 {
    if s < u32::MAX {
        (s + 1) as u32
    } else {
        0
    }
}

/// The row with id `id` as a read gives it: the stored row, or an empty one.
pub open spec fn read_row(st: Map<Seq<char>, RowView>, id: Seq<char>) -> RowView {
    if st.contains_key(id) {
        st[id]
    } else {
        empty_row(id)
    }
}

/// Every cached row is stored, with the same content.
pub open spec fn covers(st: Map<Seq<char>, Row>, e: Seq<(Seq<char>, Row)>) -> bool {
    forall|i: int|
        0 <= i < e.len() ==> st.contains_key((#[trigger] e[i]).0) && st[e[i].0].view() == e[i].1.view()
}

/// Every cached row but the one of `k` is stored, with the same content.
pub open spec fn covers_but(st: Map<Seq<char>, Row>, e: Seq<(Seq<char>, Row)>, k: Seq<char>) -> bool {
    forall|i: int|
        0 <= i < e.len() && (#[trigger] e[i]).0 != k ==> st.contains_key(e[i].0) && st[e[i].0].view()
            == e[i].1.view()
}

proof fn lemma_promote_covers(st: Map<Seq<char>, Row>, e: Seq<(Seq<char>, Row)>, ki: int)
    requires
        covers(st, e),
        0 <= ki < e.len(),
    ensures
        covers(st, seq![e[ki]] + e.remove(ki)),
{
    let n = seq![e[ki]] + e.remove(ki);
    assert forall|i: int| 0 <= i < n.len() implies st.contains_key((#[trigger] n[i]).0) && st[n[i].0].view()
        == n[i].1.view() by {
        if i > 0 {
            let i2 = if i - 1 < ki { i - 1 } else { i };
            assert(n[i] == e[i2]);
        }
    }
}

proof fn lemma_remove_covers(st: Map<Seq<char>, Row>, e: Seq<(Seq<char>, Row)>, ki: int)
    requires
        covers(st, e),
        0 <= ki < e.len(),
    ensures
        covers(st, e.remove(ki)),
{
    let n = e.remove(ki);
    assert forall|i: int| 0 <= i < n.len() implies st.contains_key((#[trigger] n[i]).0) && st[n[i].0].view()
        == n[i].1.view() by {
        let i2 = if i < ki { i } else { i + 1 };
        assert(n[i] == e[i2]);
    }
}

proof fn lemma_put_covers(st: Map<Seq<char>, Row>, e: Seq<(Seq<char>, Row)>, cap: nat, k: Seq<char>, row: Row)
    requires
        covers_but(st, e, k),
        entries_ok(e),
        cap > 0,
        st.contains_key(k),
        st[k].view() == row.view(),
    ensures
        covers(st, put_entries(e, cap, k, row)),
{
    let n = put_entries(e, cap, k, row);
    if has_key(e, k) {
        let ki = key_index(e, k);
        assert forall|i: int| 0 <= i < n.len() implies st.contains_key((#[trigger] n[i]).0) && st[n[i].0].view()
            == n[i].1.view() by {
            if i > 0 {
                let i2 = if i - 1 < ki { i - 1 } else { i };
                assert(n[i] == e.remove(ki)[i - 1]);
                assert(e.remove(ki)[i - 1] == e[i2]);
                assert(e[i2].0 != e[ki].0);
            }
        }
    } else {
        let rest = if e.len() == cap {
            e.drop_last()
        } else {
            e
        };
        assert forall|i: int| 0 <= i < n.len() implies st.contains_key((#[trigger] n[i]).0) && st[n[i].0].view()
            == n[i].1.view() by {
            if i > 0 {
                assert(n[i] == rest[i - 1]);
                assert(rest[i - 1] == e[i - 1]);
            }
        }
    }
}

/// The rows of a database: a bounded cache of rows in memory, the rows stored
/// locally, and the fetches from the remote that are waiting or running.
pub struct Block {
    uid: i64,
    cache: LruCache<String, Row>,
    stored: StrMap<Row>,
    fetching: StrMap<u32>,
    queue: Vec<FetchTask>,
    sequence: u32,
}

impl Block {
    /// Cached rows, most recently used first.
    pub closed spec fn cached(&self) -> Seq<(Seq<char>, RowView)> {
        entries_view(lru_entries(self.cache))
    }

    pub closed spec fn capacity(&self) -> nat {
        lru_capacity(self.cache)
    }

    /// Rows stored locally, by id.
    pub closed spec fn stored_rows(&self) -> Map<Seq<char>, RowView> {
        rows_view(self.stored@)
    }

    /// Ids of the rows with a fetch waiting or running.
    pub closed spec fn fetching_ids(&self) -> Set<Seq<char>> {
        self.fetching@.dom()
    }

    /// Fetch tasks not handed out yet, oldest first.
    pub closed spec fn queued(&self) -> Seq<(u32, Seq<Seq<char>>)> {
        self.queue@.map_values(|t: FetchTask| (t.seq, t.row_ids@.map_values(|s: String| s@)))
    }

    /// Sequence number of the next fetch task.
    pub closed spec fn next_seq(&self) -> u32 {
        self.sequence
    }

    pub closed spec fn spec_uid(&self) -> i64 {
        self.uid
    }

    /// Every cached row is stored, with the same content; the cache is in order.
    pub closed spec fn wf(&self) -> bool {
        self.cache_ok() && covers(self.stored@, lru_entries(self.cache))
    }

    closed spec fn cache_ok(&self) -> bool {
        let e = lru_entries(self.cache);
        &&& forall|i: int, j: int| 0 <= i < j < e.len() ==> (#[trigger] e[i]).0 != (#[trigger] e[j]).0
        &&& forall|i: int| 0 <= i < e.len() ==> (#[trigger] e[i]).1.id@ == e[i].0
        &&& e.len() <= lru_capacity(self.cache)
        &&& lru_capacity(self.cache) > 0
        &&& forall|k: Seq<char>| #[trigger]
            self.stored@.contains_key(k) ==> self.stored@[k].id@ == k
    }

    /// A block that keeps up to the default number of rows in memory.
    pub fn new(uid: i64) -> (r: Block)
        ensures
            r.wf(),
            r.spec_uid() == uid,
            r.capacity() == DEFAULT_ROW_CACHE_CAPACITY,
            r.cached().len() == 0,
            r.stored_rows().len() == 0,
            r.fetching_ids().len() == 0,
            r.queued().len() == 0,
    {
        Block::with_capacity(uid, DEFAULT_ROW_CACHE_CAPACITY)
    }

    /// A block that keeps up to `capacity` rows in memory.
    pub fn with_capacity(uid: i64, capacity: usize) -> (r: Block)
        requires
            capacity > 0,
        ensures
            r.wf(),
            r.spec_uid() == uid,
            r.capacity() == capacity,
            r.cached().len() == 0,
            r.stored_rows().len() == 0,
            r.fetching_ids().len() == 0,
            r.queued().len() == 0,
    {
        let r = Block {
            uid,
            cache: lru_new(capacity),
            stored: StrMap::new(),
            fetching: StrMap::new(),
            queue: Vec::new(),
            sequence: 0,
        };
        assert(r.stored_rows() =~= Map::<Seq<char>, RowView>::empty());
        r
    }

    pub fn uid(&self) -> (r: i64)
        ensures
            r == self.spec_uid(),
    {
        self.uid
    }

    pub fn cached_len(&self) -> (r: usize)
        ensures
            r == self.cached().len(),
    {
        lru_len(&self.cache)
    }

    /// Whether row `row_id` is in memory; does not change the recency order.
    pub fn is_cached(&self, row_id: &String) -> (r: bool)
        ensures
            r == exists|i: int| 0 <= i < self.cached().len() && (#[trigger] self.cached()[i]).0 == row_id@,
    {
        proof {
            let e = lru_entries(self.cache);
            if has_key(e, row_id@) {
                let i = key_index(e, row_id@);
                assert(self.cached()[i].0 == row_id@);
            }
            if exists|i: int| 0 <= i < self.cached().len() && (#[trigger] self.cached()[i]).0 == row_id@ {
                let i = choose|i: int| 0 <= i < self.cached().len() && (#[trigger] self.cached()[i]).0 == row_id@;
                assert(e[i].0 == row_id@);
            }
        }
        lru_peek(&self.cache, row_id).is_some()
    }

    /// Number of fetch tasks not handed out yet.
    pub fn queued_len(&self) -> (r: usize)
        ensures
            r == self.queued().len(),
    {
        self.queue.len()
    }

    /// Whether a fetch of row `row_id` is waiting or running.
    pub fn is_fetching(&self, row_id: &String) -> (r: bool)
        ensures
            r == self.fetching_ids().contains(row_id@),
    {
        self.fetching.contains_key(row_id)
    }

    fn put_row(&mut self, key: String, row: Row)
        requires
            old(self).cache_ok(),
            covers_but(old(self).stored@, lru_entries(old(self).cache), key@),
            old(self).stored@.contains_key(key@),
            old(self).stored@[key@].view() == row.view(),
            row.id@ == key@,
        ensures
            final(self).wf(),
            lru_entries(final(self).cache) == put_entries(
                lru_entries(old(self).cache),
                lru_capacity(old(self).cache),
                key@,
                row,
            ),
            lru_capacity(final(self).cache) == lru_capacity(old(self).cache),
            final(self).stored == old(self).stored,
            final(self).fetching == old(self).fetching,
            final(self).queue == old(self).queue,
            final(self).sequence == old(self).sequence,
            final(self).uid == old(self).uid,
    {
        let ghost e = lru_entries(self.cache);
        let ghost k = key@;
        proof {
            lemma_put_ok(e, lru_capacity(self.cache), k, row);
            lemma_put_covers(self.stored@, e, lru_capacity(self.cache), k, row);
        }
        lru_put(&mut self.cache, key, row);
    }

    fn pop_row(&mut self, row_id: &String)
        requires
            old(self).wf(),
        ensures
            final(self).wf(),
            has_key(lru_entries(old(self).cache), row_id@) ==> lru_entries(final(self).cache)
                == lru_entries(old(self).cache).remove(key_index(lru_entries(old(self).cache), row_id@)),
            !has_key(lru_entries(old(self).cache), row_id@) ==> lru_entries(final(self).cache)
                == lru_entries(old(self).cache),
            lru_capacity(final(self).cache) == lru_capacity(old(self).cache),
            final(self).stored == old(self).stored,
            final(self).fetching == old(self).fetching,
            final(self).queue == old(self).queue,
            final(self).sequence == old(self).sequence,
            final(self).uid == old(self).uid,
    {
        let ghost e = lru_entries(self.cache);
        proof {
            if has_key(e, row_id@) {
                lemma_remove_ok(e, key_index(e, row_id@));
                lemma_remove_covers(self.stored@, e, key_index(e, row_id@));
            }
        }
        lru_pop(&mut self.cache, row_id);
    }
}

/// Rows stored, rows cached and rows taken in, while fetched rows come in.
pub struct FetchState {
    pub stored: Map<Seq<char>, RowView>,
    pub cached: Seq<(Seq<char>, RowView)>,
    pub accepted: Seq<RowView>,
}

/// A fetched row is taken in, stored and cached, unless a row with its id is
/// stored already.
pub open spec fn fetch_step(f: FetchState, cap: nat, v: RowView) -> FetchState {
    if f.stored.contains_key(v.id) {
        f
    } else {
        FetchState {
            stored: f.stored.insert(v.id, v),
            cached: put_views(f.cached, cap, v.id, v),
            accepted: f.accepted.push(v),
        }
    }
}

pub open spec fn fetch_fold(f: FetchState, cap: nat, vs: Seq<RowView>) -> FetchState
    decreases vs.len(),
{
    if vs.len() == 0 {
        f
    } else {
        fetch_step(fetch_fold(f, cap, vs.drop_last()), cap, vs.last())
    }
}

/// What reading row `id` does to a block: a cached row moves to the front; a
/// stored row that is not cached is cached; a row that is not stored gets a
/// fetch requested, unless one is already waiting or running.
pub open spec fn read_effects(b0: Block, id: Seq<char>, b1: Block) -> bool {
    let c = b0.cached();
    let hit = exists|i: int| 0 <= i < c.len() && (#[trigger] c[i]).0 == id;
    &&& b1.wf()
    &&& b1.stored_rows() == b0.stored_rows()
    &&& b1.capacity() == b0.capacity()
    &&& b1.spec_uid() == b0.spec_uid()
    &&& hit ==> exists|i: int|
        0 <= i < c.len() && (#[trigger] c[i]).0 == id && b1.cached() == seq![c[i]] + c.remove(i)
    &&& !hit && b0.stored_rows().contains_key(id) ==> b1.cached() == seq![
        (id, b0.stored_rows()[id]),
    ] + (if c.len() == b0.capacity() {
        c.drop_last()
    } else {
        c
    })
    &&& b0.stored_rows().contains_key(id) ==> b1.fetching_ids() == b0.fetching_ids() && b1.queued()
        == b0.queued() && b1.next_seq() == b0.next_seq()
    &&& !b0.stored_rows().contains_key(id) ==> b1.cached() == c && b1.fetching_ids()
        == b0.fetching_ids().insert(id) && (b0.fetching_ids().contains(id) ==> b1.queued()
        == b0.queued() && b1.next_seq() == b0.next_seq()) && (!b0.fetching_ids().contains(id)
        ==> b1.queued() == b0.queued().push((b0.next_seq(), seq![id])) && b1.next_seq()
        == next_seq_after(b0.next_seq()))
}

impl Block {
    /// Hands row `row_id` to the fetcher unless a fetch of it is already
    /// waiting or running.
    fn request_fetch(&mut self, row_id: &String)
        requires
            old(self).wf(),
        ensures
            final(self).wf(),
            final(self).cached() == old(self).cached(),
            lru_entries(final(self).cache) == lru_entries(old(self).cache),
            lru_capacity(final(self).cache) == lru_capacity(old(self).cache),
            final(self).stored == old(self).stored,
            final(self).uid == old(self).uid,
            final(self).fetching_ids() == old(self).fetching_ids().insert(row_id@),
            old(self).fetching_ids().contains(row_id@) ==> final(self).queued() == old(self).queued()
                && final(self).next_seq() == old(self).next_seq(),
            !old(self).fetching_ids().contains(row_id@) ==> final(self).queued() == old(
                self,
            ).queued().push((old(self).next_seq(), seq![row_id@])) && final(self).next_seq()
                == next_seq_after(old(self).next_seq()),
    {
        if !self.fetching.contains_key(row_id) {
            let seq = self.sequence;
            self.fetching.insert(row_id.clone(), seq);
            let ids = vec![row_id.clone()];
            let ghost q0 = self.queue@;
            self.queue.push(FetchTask { seq, row_ids: ids });
            self.sequence = if seq < u32::MAX {
                seq + 1
            } else {
                0
            };
            proof {
                assert(ids@.map_values(|s: String| s@) =~= seq![row_id@]);
                assert(self.queued() =~= old(self).queued().push((seq, seq![row_id@])));
            }
        } else {
            assert(old(self).fetching_ids().insert(row_id@) =~= old(self).fetching_ids());
        }
    }

    /// The row from memory; else from local storage, which also caches it;
    /// else `None`, once a fetch from the remote is requested.
    fn get_or_init_row(&mut self, row_id: &String) -> (r: Option<Row>)
        requires
            old(self).wf(),
        ensures
            final(self).wf(),
            read_effects(*old(self), row_id@, *final(self)),
            r is Some <==> old(self).stored_rows().contains_key(row_id@),
            r matches Some(row) ==> row.view() == old(self).stored_rows()[row_id@],
            old(self).stored_rows().contains_key(row_id@) ==> final(self).fetching_ids() == old(
                self,
            ).fetching_ids() && final(self).queued() == old(self).queued() && final(self).next_seq()
                == old(self).next_seq(),
            !old(self).stored_rows().contains_key(row_id@) ==> final(self).cached() == old(self).cached()
                && final(self).fetching_ids() == old(self).fetching_ids().insert(row_id@) && (old(
                self,
            ).fetching_ids().contains(row_id@) ==> final(self).queued() == old(self).queued()
                && final(self).next_seq() == old(self).next_seq()) && (!old(
                self,
            ).fetching_ids().contains(row_id@) ==> final(self).queued() == old(self).queued().push(
                (old(self).next_seq(), seq![row_id@]),
            ) && final(self).next_seq() == next_seq_after(old(self).next_seq())),
            final(self).stored_rows() == old(self).stored_rows(),
            final(self).capacity() == old(self).capacity(),
            final(self).spec_uid() == old(self).spec_uid(),
            ({
                let c = old(self).cached();
                let hit = exists|i: int| 0 <= i < c.len() && (#[trigger] c[i]).0 == row_id@;
                &&& hit ==> exists|i: int|
                    0 <= i < c.len() && (#[trigger] c[i]).0 == row_id@ && (r matches Some(row)
                        && row.view() == c[i].1) && final(self).cached() == seq![c[i]] + c.remove(i)
                &&& hit || old(self).stored_rows().contains_key(row_id@) ==> final(self).fetching_ids()
                    == old(self).fetching_ids() && final(self).queued() == old(self).queued()
                &&& !hit && old(self).stored_rows().contains_key(row_id@) ==> (r matches Some(row)
                    && row.view() == old(self).stored_rows()[row_id@]) && final(self).cached()
                    == seq![(row_id@, old(self).stored_rows()[row_id@])] + (if c.len()
                    == old(self).capacity() {
                    c.drop_last()
                } else {
                    c
                })
                &&& !hit && !old(self).stored_rows().contains_key(row_id@) ==> r is None
                    && final(self).cached() == c && final(self).fetching_ids() == old(
                    self,
                ).fetching_ids().insert(row_id@) && (old(self).fetching_ids().contains(row_id@)
                    ==> final(self).queued() == old(self).queued()) && (!old(
                    self,
                ).fetching_ids().contains(row_id@) ==> final(self).queued() == old(
                    self,
                ).queued().push((old(self).next_seq(), seq![row_id@])))
            }),
    {
        let ghost e = lru_entries(self.cache);
        let ghost c = self.cached();
        if lru_promote(&mut self.cache, row_id) {
            let row = match lru_peek(&self.cache, row_id) {
                Some(r) => r.copy(),
                None => {
                    proof {
                        let ki = key_index(e, row_id@);
                        assert(lru_entries(self.cache)[0].0 == row_id@);
                    }
                    return None;
                },
            };
            proof {
                let ki = key_index(e, row_id@);
                let n = lru_entries(self.cache);
                assert(n[0] == e[ki]);
                assert(c[ki].0 == row_id@);
                let j = key_index(n, row_id@);
                if j != 0 {
                    assert(n[j].0 == n[0].0);
                }
                assert(self.cached() =~= seq![c[ki]] + c.remove(ki));
                assert forall|a: int, b: int| 0 <= a < b < n.len() implies (#[trigger] n[a]).0 != (
                #[trigger] n[b]).0 by {
                    if a == 0 {
                        let b2 = if b - 1 < ki { b - 1 } else { b };
                        assert(n[b] == e[b2]);
                    } else {
                        let a2 = if a - 1 < ki { a - 1 } else { a };
                        let b2 = if b - 1 < ki { b - 1 } else { b };
                        assert(n[a] == e[a2]);
                        assert(n[b] == e[b2]);
                    }
                }
            }
            return Some(row);
        }
        proof {
            assert forall|i: int| 0 <= i < c.len() implies (#[trigger] c[i]).0 != row_id@ by {
                assert(e[i].0 == c[i].0);
            }
        }
        match self.stored.get(row_id) {
            Some(stored) => {
                let row = stored.copy();
                let ghost sv = stored.view();
                let cached_row = row.copy();
                let ghost cap = lru_capacity(self.cache);
                self.put_row(row_id.clone(), cached_row);
                proof {
                    assert(!has_key(e, row_id@)) by {
                        if has_key(e, row_id@) {
                            let ki = key_index(e, row_id@);
                            assert(c[ki].0 == row_id@);
                        }
                    }
                    assert(rows_view(self.stored@)[row_id@] == sv);
                    if e.len() == cap {
                        assert(self.cached() =~= seq![(row_id@, row.view())] + c.drop_last());
                    } else {
                        assert(self.cached() =~= seq![(row_id@, row.view())] + c);
                    }
                }
                Some(row)
            },
            None => {
                proof {
                    assert(!rows_view(self.stored@).contains_key(row_id@));
                }
                self.request_fetch(row_id);
                None
            },
        }
    }
}

/// `row` after `change`.
pub fn apply_change(row: Row, change: RowChange) -> (r: Row)
    ensures
        r.view() == change_row(row.view(), change),
{
    match change {
        RowChange::Height(h) => Row { height: h, ..row },
        RowChange::Visibility(v) => Row { visibility: v, ..row },
        RowChange::Cell { field_id, cell, now } => {
            let Row { id, cells, height, visibility, created_at, meta } = row;
            let cells = CellsUpdate::new(cells, now).insert_cell(&field_id, cell).into_cells();
            Row { id, cells, height, visibility, created_at, meta }
        },
        RowChange::Meta { icon_url, cover_url } => {
            let Row { id, cells, height, visibility, created_at, meta } = row;
            let RowMeta { icon_url: old_icon, cover_url: old_cover } = meta;
            let meta = RowMeta {
                icon_url: if icon_url.is_some() {
                    icon_url
                } else {
                    old_icon
                },
                cover_url: if cover_url.is_some() {
                    cover_url
                } else {
                    old_cover
                },
            };
            Row { id, cells, height, visibility, created_at, meta }
        },
    }
}

/// Row `k` is in the cache.
pub open spec fn cached_key(c: Seq<(Seq<char>, RowView)>, k: Seq<char>) -> bool {
    exists|i: int| 0 <= i < c.len() && (#[trigger] c[i]).0 == k
}

/// The cache after a row is put under `k`, as seen through the row views.
pub open spec fn put_views(c: Seq<(Seq<char>, RowView)>, cap: nat, k: Seq<char>, v: RowView) -> Seq<
    (Seq<char>, RowView),
> {
    if exists|i: int| 0 <= i < c.len() && (#[trigger] c[i]).0 == k {
        seq![(k, v)] + c.remove(choose|i: int| 0 <= i < c.len() && (#[trigger] c[i]).0 == k)
    } else if c.len() == cap {
        seq![(k, v)] + c.drop_last()
    } else {
        seq![(k, v)] + c
    }
}

/// A full cache that takes a row it does not hold drops exactly its least
/// recently used row, the last one, and keeps the others in order.
pub proof fn lemma_full_cache_evicts_lru(
    c: Seq<(Seq<char>, RowView)>,
    cap: nat,
    k: Seq<char>,
    v: RowView,
)
    requires
        c.len() == cap,
        cap > 0,
        !cached_key(c, k),
        forall|a: int, b: int| 0 <= a < b < c.len() ==> (#[trigger] c[a]).0 != (#[trigger] c[b]).0,
    ensures
        put_views(c, cap, k, v) == seq![(k, v)] + c.drop_last(),
        !cached_key(put_views(c, cap, k, v), c.last().0),
        forall|a: int| 0 <= a < c.len() - 1 ==> cached_key(put_views(c, cap, k, v), #[trigger] c[a].0),
{
    let n = put_views(c, cap, k, v);
    assert(n == seq![(k, v)] + c.drop_last());
    if cached_key(n, c.last().0) {
        let i = choose|i: int| 0 <= i < n.len() && (#[trigger] n[i]).0 == c.last().0;
        if i == 0 {
            assert(cached_key(c, k)) by {
                assert(c[c.len() - 1].0 == k);
            }
        } else {
            assert(n[i] == c[i - 1]);
            assert(c[i - 1].0 != c[c.len() - 1].0);
        }
    }
    assert forall|a: int| 0 <= a < c.len() - 1 implies cached_key(n, #[trigger] c[a].0) by {
        assert(n[a + 1] == c[a]);
    }
}

impl Block {
    proof fn lemma_put_views(&self, k: Seq<char>, row: Row)
        requires
            self.wf(),
        ensures
            entries_view(put_entries(lru_entries(self.cache), lru_capacity(self.cache), k, row))
                == put_views(self.cached(), self.capacity(), k, row.view()),
    {
        let e = lru_entries(self.cache);
        let c = self.cached();
        if has_key(e, k) {
            let ki = key_index(e, k);
            assert(c[ki].0 == k);
            let ci = choose|i: int| 0 <= i < c.len() && (#[trigger] c[i]).0 == k;
            assert(e[ci].0 == k);
            assert(ci == ki);
            assert(entries_view(seq![(k, row)] + e.remove(ki)) =~= seq![(k, row.view())] + c.remove(ki));
        } else {
            assert forall|i: int| 0 <= i < c.len() implies (#[trigger] c[i]).0 != k by {
                assert(e[i].0 == c[i].0);
            }
            if e.len() == lru_capacity(self.cache) {
                assert(entries_view(seq![(k, row)] + e.drop_last()) =~= seq![(k, row.view())] + c.drop_last());
            } else {
                assert(entries_view(seq![(k, row)] + e) =~= seq![(k, row.view())] + c);
            }
        }
    }

    /// The row with id `row_id`; a row that is neither cached nor stored reads
    /// as an empty row, and a fetch of it from the remote is requested once.
    pub fn get_row(&mut self, row_id: &String) -> (r: Row)
        requires
            old(self).wf(),
        ensures
            r.view() == read_row(old(self).stored_rows(), row_id@),
            read_effects(*old(self), row_id@, *final(self)),
    {
        match self.get_or_init_row(row_id) {
            Some(row) => row,
            None => Row::empty(row_id.clone()),
        }
    }

    /// The cell of field `field_id` of row `row_id`, read as `get_row` reads.
    pub fn get_cell(&mut self, row_id: &String, field_id: &String) -> (r: Option<Cell>)
        requires
            old(self).wf(),
        ensures
            read_effects(*old(self), row_id@, *final(self)),
            r is Some <==> read_row(old(self).stored_rows(), row_id@).cells.contains_key(field_id@),
            r matches Some(c) ==> c@ == read_row(old(self).stored_rows(), row_id@).cells[field_id@],
    {
        match self.get_or_init_row(row_id) {
            Some(row) => match row.cells.cell_for_field_id(field_id) {
                Some(c) => Some(copy_cell(c)),
                None => None,
            },
            None => None,
        }
    }

    /// The rows of `row_orders`, in order, read as `get_row` reads.
    pub fn get_rows_from_row_orders(&mut self, row_orders: &[RowOrder]) -> (r: Vec<Row>)
        requires
            old(self).wf(),
        ensures
            final(self).wf(),
            final(self).stored_rows() == old(self).stored_rows(),
            final(self).capacity() == old(self).capacity(),
            r@.len() == row_orders@.len(),
            forall|i: int|
                0 <= i < row_orders@.len() ==> (#[trigger] r@[i]).view() == read_row(
                    old(self).stored_rows(),
                    row_orders@[i].id@,
                ),
            final(self).fetching_ids() == old(self).fetching_ids() + row_orders@.map_values(
                |o: RowOrder| o.id@,
            ).to_set().filter(|k: Seq<char>| !old(self).stored_rows().contains_key(k)),
    {
        let ghost ids = row_orders@.map_values(|o: RowOrder| o.id@);
        let ghost st = self.stored_rows();
        let mut rows: Vec<Row> = Vec::new();
        let mut i: usize = 0;
        while i < row_orders.len()
            invariant
                self.wf(),
                st == old(self).stored_rows(),
                self.stored_rows() == st,
                self.capacity() == old(self).capacity(),
                ids == row_orders@.map_values(|o: RowOrder| o.id@),
                i <= row_orders@.len(),
                rows@.len() == i,
                forall|j: int|
                    0 <= j < i ==> (#[trigger] rows@[j]).view() == read_row(st, row_orders@[j].id@),
                self.fetching_ids() == old(self).fetching_ids() + ids.subrange(0, i as int).to_set().filter(
                    |k: Seq<char>| !st.contains_key(k),
                ),
            decreases row_orders@.len() - i,
        {
            let ghost f0 = self.fetching_ids();
            let row = self.get_row(&row_orders[i].id);
            proof {
                let k = ids[i as int];
                assert(k == row_orders@[i as int].id@);
                assert(ids.subrange(0, i + 1) =~= ids.subrange(0, i as int).push(k));
                ids.subrange(0, i as int).lemma_push_to_set_commute(k);
                assert(self.fetching_ids() =~= old(self).fetching_ids() + ids.subrange(0, i + 1).to_set().filter(
                    |k: Seq<char>| !st.contains_key(k),
                ));
            }
            rows.push(row);
            i = i + 1;
        }
        assert(ids.subrange(0, row_orders@.len() as int) =~= ids);
        rows
    }

    /// Stores a new row and caches it, which may push out the least recently
    /// used row; fetches in progress are kept.
    pub fn create_row(&mut self, row: Row) -> (r: RowOrder)
        requires
            old(self).wf(),
        ensures
            final(self).wf(),
            r.id == row.id,
            r.height == row.height,
            final(self).stored_rows() == old(self).stored_rows().insert(row.id@, row.view()),
            final(self).cached() == put_views(old(self).cached(), old(self).capacity(), row.id@, row.view()),
            final(self).capacity() == old(self).capacity(),
            final(self).fetching_ids() == old(self).fetching_ids(),
            final(self).queued() == old(self).queued(),
            final(self).spec_uid() == old(self).spec_uid(),
    {
        let order = RowOrder { id: row.id.clone(), height: row.height };
        let kept = row.copy();
        let ghost rv = row.view();
        let ghost st = self.stored@;
        proof {
            self.lemma_put_views(row.id@, row);
        }
        self.stored.insert(row.id.clone(), kept);
        proof {
            assert(rows_view(self.stored@) =~= rows_view(st).insert(row.id@, rv));
        }
        let key = row.id.clone();
        self.put_row(key, row);
        order
    }

    pub fn create_rows(&mut self, rows: Vec<Row>) -> (r: Vec<RowOrder>)
        requires
            old(self).wf(),
        ensures
            final(self).wf(),
            r@.len() == rows@.len(),
            forall|i: int| 0 <= i < rows@.len() ==> (#[trigger] r@[i]).id@ == rows@[i].id@,
            forall|i: int| 0 <= i < rows@.len() ==> (#[trigger] r@[i]).height == rows@[i].height,
            forall|i: int|
                0 <= i < rows@.len() ==> final(self).stored_rows().contains_key(#[trigger] rows@[i].id@),
            final(self).fetching_ids() == old(self).fetching_ids(),
            final(self).queued() == old(self).queued(),
    {
        let mut orders: Vec<RowOrder> = Vec::new();
        let n = rows.len();
        let mut i: usize = 0;
        while i < n
            invariant
                self.wf(),
                n == rows@.len(),
                i <= n,
                orders@.len() == i,
                forall|j: int| 0 <= j < i ==> (#[trigger] orders@[j]).id@ == rows@[j].id@,
                forall|j: int| 0 <= j < i ==> (#[trigger] orders@[j]).height == rows@[j].height,
                forall|j: int| 0 <= j < i ==> self.stored_rows().contains_key(#[trigger] rows@[j].id@),
                self.fetching_ids() == old(self).fetching_ids(),
                self.queued() == old(self).queued(),
            decreases n - i,
        {
            let row = rows[i].copy();
            let o = self.create_row(row);
            orders.push(o);
            i = i + 1;
        }
        orders
    }
}

impl Block {
    proof fn lemma_pop_views(&self, k: Seq<char>)
        requires
            self.wf(),
            has_key(lru_entries(self.cache), k),
        ensures
            exists|i: int|
                0 <= i < self.cached().len() && (#[trigger] self.cached()[i]).0 == k && entries_view(
                    lru_entries(self.cache).remove(key_index(lru_entries(self.cache), k)),
                ) == self.cached().remove(i),
    {
        let e = lru_entries(self.cache);
        let ki = key_index(e, k);
        assert(self.cached()[ki].0 == k);
        assert(entries_view(e.remove(ki)) =~= self.cached().remove(ki));
    }

    proof fn lemma_not_cached(&self, k: Seq<char>)
        requires
            !has_key(lru_entries(self.cache), k),
        ensures
            forall|i: int| 0 <= i < self.cached().len() ==> (#[trigger] self.cached()[i]).0 != k,
    {
        assert forall|i: int| 0 <= i < self.cached().len() implies (#[trigger] self.cached()[i]).0 != k by {
            assert(lru_entries(self.cache)[i].0 == self.cached()[i].0);
        }
    }

    /// Drops a row from memory and from local storage.
    pub fn delete_row(&mut self, row_id: &String)
        requires
            old(self).wf(),
        ensures
            final(self).wf(),
            final(self).stored_rows() == old(self).stored_rows().remove(row_id@),
            (exists|i: int|
                0 <= i < old(self).cached().len() && (#[trigger] old(self).cached()[i]).0 == row_id@
                    && final(self).cached() == old(self).cached().remove(i)) || ((forall|i: int|
                0 <= i < old(self).cached().len() ==> (#[trigger] old(self).cached()[i]).0
                    != row_id@) && final(self).cached() == old(self).cached()),
            final(self).capacity() == old(self).capacity(),
            final(self).fetching_ids() == old(self).fetching_ids(),
            final(self).queued() == old(self).queued(),
    {
        proof {
            if has_key(lru_entries(self.cache), row_id@) {
                self.lemma_pop_views(row_id@);
            } else {
                self.lemma_not_cached(row_id@);
            }
        }
        self.pop_row(row_id);
        let ghost st = self.stored@;
        self.stored.remove(row_id);
        assert(rows_view(self.stored@) =~= rows_view(st).remove(row_id@));
    }

    /// Drops rows from memory only; they stay in local storage.
    pub fn close_rows(&mut self, row_ids: &[String])
        requires
            old(self).wf(),
        ensures
            final(self).wf(),
            final(self).stored_rows() == old(self).stored_rows(),
            forall|k: Seq<char>|
                #[trigger] cached_key(final(self).cached(), k) <==> cached_key(old(self).cached(), k)
                    && !row_ids@.map_values(|s: String| s@).contains(k),
            final(self).capacity() == old(self).capacity(),
            final(self).fetching_ids() == old(self).fetching_ids(),
            final(self).queued() == old(self).queued(),
    {
        let ghost c0 = self.cached();
        let ghost ids = row_ids@.map_values(|s: String| s@);
        let mut i: usize = 0;
        while i < row_ids.len()
            invariant
                self.wf(),
                i <= row_ids@.len(),
                ids == row_ids@.map_values(|s: String| s@),
                c0 == old(self).cached(),
                self.stored_rows() == old(self).stored_rows(),
                self.capacity() == old(self).capacity(),
                self.fetching_ids() == old(self).fetching_ids(),
                self.queued() == old(self).queued(),
                forall|k: Seq<char>|
                    #[trigger] cached_key(self.cached(), k) <==> cached_key(c0, k) && !ids.subrange(
                        0,
                        i as int,
                    ).contains(k),
            decreases row_ids@.len() - i,
        {
            let ghost c1 = self.cached();
            let ghost k0 = row_ids@[i as int]@;
            proof {
                self.lemma_cached_unique();
                if has_key(lru_entries(self.cache), k0) {
                    self.lemma_pop_views(k0);
                } else {
                    self.lemma_not_cached(k0);
                }
            }
            self.pop_row(&row_ids[i]);
            proof {
                let c2 = self.cached();
                assert(ids.subrange(0, i + 1) =~= ids.subrange(0, i as int).push(k0));
                assert(ids[i as int] == k0);
                assert forall|k: Seq<char>| ids.subrange(0, i + 1).contains(k) == (ids.subrange(
                    0,
                    i as int,
                ).contains(k) || k == k0) by {
                    if ids.subrange(0, i + 1).contains(k) && k != k0 {
                        let j = choose|j: int| 0 <= j < i + 1 && #[trigger] ids.subrange(0, i + 1)[j] == k;
                        assert(ids.subrange(0, i as int)[j] == k);
                    }
                    if k == k0 {
                        assert(ids.subrange(0, i + 1)[i as int] == k);
                    }
                    if ids.subrange(0, i as int).contains(k) {
                        let j = choose|j: int| 0 <= j < i && #[trigger] ids.subrange(0, i as int)[j] == k;
                        assert(ids.subrange(0, i + 1)[j] == k);
                    }
                }
                assert forall|k: Seq<char>| #[trigger] cached_key(c2, k) <==> cached_key(c1, k) && k != k0 by {
                    if c2 != c1 {
                        let pi = choose|p: int|
                            0 <= p < c1.len() && (#[trigger] c1[p]).0 == k0 && c2 == c1.remove(p);
                        if cached_key(c2, k) {
                            let j = choose|j: int| 0 <= j < c2.len() && (#[trigger] c2[j]).0 == k;
                            let j2 = if j < pi {
                                j
                            } else {
                                j + 1
                            };
                            assert(c1[j2].0 == k);
                            assert(j2 != pi);
                        }
                        if cached_key(c1, k) && k != k0 {
                            let j = choose|j: int| 0 <= j < c1.len() && (#[trigger] c1[j]).0 == k;
                            let j2 = if j < pi {
                                j
                            } else {
                                j - 1
                            };
                            assert(c2[j2].0 == k);
                        }
                    } else {
                        if k == k0 && cached_key(c2, k) {
                            let j = choose|j: int| 0 <= j < c2.len() && (#[trigger] c2[j]).0 == k;
                            assert(c1[j].0 == k0);
                        }
                    }
                }
            }
            proof {
                let c2 = self.cached();
                assert forall|k: Seq<char>| #[trigger] cached_key(c2, k) <==> cached_key(c0, k)
                    && !ids.subrange(0, i + 1).contains(k) by {
                    assert(cached_key(c1, k) <==> cached_key(c0, k) && !ids.subrange(0, i as int).contains(k));
                }
            }
            i = i + 1;
        }
        assert(ids.subrange(0, row_ids@.len() as int) =~= ids);
    }

    /// A block's capacity is positive, so a full cache holds a row.
    pub proof fn lemma_capacity_positive(&self)
        requires
            self.wf(),
        ensures
            self.capacity() > 0,
    {
    }

    /// The cached rows have distinct ids.
    pub proof fn lemma_cached_unique(&self)
        requires
            self.wf(),
        ensures
            forall|a: int, b: int|
                0 <= a < b < self.cached().len() ==> (#[trigger] self.cached()[a]).0 != (
                #[trigger] self.cached()[b]).0,
    {
        let e = lru_entries(self.cache);
        assert forall|a: int, b: int| 0 <= a < b < self.cached().len() implies (
        #[trigger] self.cached()[a]).0 != (#[trigger] self.cached()[b]).0 by {
            assert(self.cached()[a].0 == e[a].0);
            assert(self.cached()[b].0 == e[b].0);
        }
    }
}

/// Whether `s` parses as a UUID.
pub uninterp spec fn uuid_parses(s: Seq<char>) -> bool;

/// The text of the name-based (version 5) UUID of `name` in the namespace
/// that `s` parses to.
pub uninterp spec fn uuid_v5_text(s: Seq<char>, name: Seq<char>) -> Seq<char>;

/// Relies on uuid::Uuid::parse_str, then uuid::Uuid::new_v5 and its text
/// form: the id that a row's side data is stored under is a function of the
/// row id and the name alone.
#[verifier::external_body]
fn uuid_v5_of(s: &String, name: &str) -> (r: Option<String>)
    ensures
        r is Some <==> uuid_parses(s@),
        r matches Some(t) ==> t@ == uuid_v5_text(s@, name@),
{
    match uuid::Uuid::parse_str(s) {
        Ok(u) => Some(uuid::Uuid::new_v5(&u, name.as_bytes()).to_string()),
        Err(_) => None,
    }
}

/// Name under which a row's document id is derived.
pub const DOCUMENT_ID_KEY: &'static str = "document_id";

impl Block {
    /// The id of the document attached to row `row_id`: derived from the row
    /// id, which must be a UUID.
    pub fn get_row_document_id(&self, row_id: &String) -> (r: Option<String>)
        ensures
            r is Some <==> uuid_parses(row_id@),
            r matches Some(t) ==> t@ == uuid_v5_text(row_id@, DOCUMENT_ID_KEY@),
    {
        uuid_v5_of(row_id, DOCUMENT_ID_KEY)
    }

    /// Applies `change` to row `row_id` if it is in memory, and stores the
    /// result; a row that is not in memory is left alone.
    pub fn update_row(&mut self, row_id: &String, change: RowChange) -> (r: bool)
        requires
            old(self).wf(),
        ensures
            final(self).wf(),
            r == cached_key(old(self).cached(), row_id@),
            r ==> exists|i: int|
                0 <= i < old(self).cached().len() && (#[trigger] old(self).cached()[i]).0 == row_id@
                    && final(self).cached() == seq![
                    (row_id@, change_row(old(self).cached()[i].1, change)),
                ] + old(self).cached().remove(i) && final(self).stored_rows() == old(
                    self,
                ).stored_rows().insert(row_id@, change_row(old(self).cached()[i].1, change)),
            !r ==> final(self).cached() == old(self).cached() && final(self).stored_rows() == old(
                self,
            ).stored_rows(),
            final(self).capacity() == old(self).capacity(),
            final(self).fetching_ids() == old(self).fetching_ids(),
            final(self).queued() == old(self).queued(),
    {
        let ghost e = lru_entries(self.cache);
        let ghost c = self.cached();
        proof {
            self.lemma_cached_unique();
            if has_key(e, row_id@) {
                let ki = key_index(e, row_id@);
                assert(c[ki].0 == row_id@);
            } else {
                self.lemma_not_cached(row_id@);
            }
        }
        if !lru_promote(&mut self.cache, row_id) {
            return false;
        }
        let ghost ki = key_index(e, row_id@);
        let ghost e1 = lru_entries(self.cache);
        proof {
            assert forall|a: int, b: int| 0 <= a < b < e1.len() implies (#[trigger] e1[a]).0 != (
            #[trigger] e1[b]).0 by {
                if a == 0 {
                    let b2 = if b - 1 < ki { b - 1 } else { b };
                    assert(e1[b] == e[b2]);
                } else {
                    let a2 = if a - 1 < ki { a - 1 } else { a };
                    let b2 = if b - 1 < ki { b - 1 } else { b };
                    assert(e1[a] == e[a2]);
                    assert(e1[b] == e[b2]);
                }
            }
            let j = key_index(e1, row_id@);
            if j != 0 {
                assert(e1[j].0 == e1[0].0);
            }
        }
        let row = match lru_peek(&self.cache, row_id) {
            Some(r) => r.copy(),
            None => {
                assert(e1[0].0 == row_id@);
                return false;
            },
        };
        let changed = apply_change(row, change);
        let ghost nv = changed.view();
        let ghost st = self.stored@;
        self.stored.insert(row_id.clone(), changed.copy());
        let ghost e2 = lru_entries(self.cache);
        self.put_row(row_id.clone(), changed);
        proof {
            assert(rows_view(self.stored@) =~= rows_view(st).insert(row_id@, nv));
            assert(key_index(e2, row_id@) == 0) by {
                let j = key_index(e2, row_id@);
                if j != 0 {
                    assert(e2[j].0 == e2[0].0);
                }
            }
            assert(self.cached() =~= seq![(row_id@, nv)] + c.remove(ki));
        }
        true
    }

    /// Requests a fetch of the rows that are not being fetched yet, as one task.
    pub fn batch_load_rows(&mut self, row_ids: Vec<String>)
        requires
            old(self).wf(),
        ensures
            final(self).wf(),
            final(self).cached() == old(self).cached(),
            final(self).stored_rows() == old(self).stored_rows(),
            final(self).capacity() == old(self).capacity(),
            final(self).fetching_ids() == old(self).fetching_ids() + row_ids@.map_values(
                |s: String| s@,
            ).to_set(),
            ({
                let f = fresh_ids(old(self).fetching_ids(), row_ids@.map_values(|s: String| s@));
                &&& f.len() == 0 ==> final(self).queued() == old(self).queued() && final(self).next_seq()
                    == old(self).next_seq()
                &&& f.len() > 0 ==> final(self).queued() == old(self).queued().push(
                    (old(self).next_seq(), f),
                ) && final(self).next_seq() == next_seq_after(old(self).next_seq())
            }),
    {
        let seq = self.sequence;
        let ghost ids = row_ids@.map_values(|s: String| s@);
        let mut fresh: Vec<String> = Vec::new();
        let mut i: usize = 0;
        while i < row_ids.len()
            invariant
                i <= row_ids@.len(),
                ids == row_ids@.map_values(|s: String| s@),
                self.fetching@.dom() == old(self).fetching@.dom() + ids.subrange(0, i as int).to_set(),
                self.fetching@.dom() == old(self).fetching@.dom() + fresh@.map_values(|s: String| s@).to_set(),
                fresh@.map_values(|s: String| s@) == fresh_ids(old(self).fetching@.dom(), ids.subrange(0, i as int)),
                self.cache == old(self).cache,
                self.stored == old(self).stored,
                self.queue == old(self).queue,
                self.sequence == old(self).sequence,
                self.uid == old(self).uid,
            decreases row_ids@.len() - i,
        {
            let ghost fv = fresh@.map_values(|s: String| s@);
            proof {
                let sub1 = ids.subrange(0, i + 1);
                assert(sub1.drop_last() =~= ids.subrange(0, i as int));
                assert(sub1.last() == ids[i as int]);
                assert(ids[i as int] == row_ids@[i as int]@);
                assert(fv.to_set().contains(ids[i as int]) == fv.contains(ids[i as int]));
            }
            if !self.fetching.contains_key(&row_ids[i]) {
                self.fetching.insert(row_ids[i].clone(), seq);
                fresh.push(row_ids[i].clone());
                proof {
                    assert(fresh@.map_values(|s: String| s@) =~= fv.push(ids[i as int]));
                    fv.lemma_push_to_set_commute(ids[i as int]);
                    assert(self.fetching@.dom() =~= old(self).fetching@.dom() + fresh@.map_values(|s: String| s@).to_set());
                }
            }
            proof {
                assert(ids.subrange(0, i + 1) =~= ids.subrange(0, i as int).push(ids[i as int]));
                assert(ids.subrange(0, i + 1).to_set() =~= ids.subrange(0, i as int).to_set().insert(
                    ids[i as int],
                )) by {
                    ids.subrange(0, i as int).lemma_push_to_set_commute(ids[i as int]);
                }
                assert(self.fetching@.dom() =~= old(self).fetching@.dom() + ids.subrange(0, i + 1).to_set());
            }
            i = i + 1;
        }
        assert(ids.subrange(0, row_ids@.len() as int) =~= ids);
        if fresh.len() > 0 {
            let ghost q0 = self.queued();
            let ghost fv = fresh@.map_values(|s: String| s@);
            self.queue.push(FetchTask { seq, row_ids: fresh });
            self.sequence = if seq < u32::MAX {
                seq + 1
            } else {
                0
            };
            assert(self.queued() =~= q0.push((seq, fv)));
        }
    }

    /// The oldest fetch task not handed out yet; the fetcher runs it.
    pub fn next_task(&mut self) -> (r: Option<FetchTask>)
        requires
            old(self).wf(),
        ensures
            final(self).wf(),
            final(self).cached() == old(self).cached(),
            final(self).stored_rows() == old(self).stored_rows(),
            final(self).fetching_ids() == old(self).fetching_ids(),
            old(self).queued().len() == 0 ==> r is None && final(self).queued() == old(self).queued(),
            old(self).queued().len() > 0 ==> (r matches Some(t) && (t.seq, t.row_ids@.map_values(
                |s: String| s@,
            )) == old(self).queued()[0]) && final(self).queued() == old(self).queued().drop_first(),
    {
        if self.queue.len() == 0 {
            None
        } else {
            let t = self.queue.remove(0);
            assert(self.queued() =~= old(self).queued().drop_first());
            Some(t)
        }
    }

    /// The fetches of `row_ids` failed: they may be requested again.
    pub fn did_fail_fetch(&mut self, row_ids: &[String])
        requires
            old(self).wf(),
        ensures
            final(self).wf(),
            final(self).cached() == old(self).cached(),
            final(self).stored_rows() == old(self).stored_rows(),
            final(self).queued() == old(self).queued(),
            final(self).fetching_ids() == old(self).fetching_ids() - row_ids@.map_values(
                |s: String| s@,
            ).to_set(),
    {
        let ghost ids = row_ids@.map_values(|s: String| s@);
        let mut i: usize = 0;
        while i < row_ids.len()
            invariant
                i <= row_ids@.len(),
                ids == row_ids@.map_values(|s: String| s@),
                self.fetching@.dom() == old(self).fetching@.dom() - ids.subrange(0, i as int).to_set(),
                self.cache == old(self).cache,
                self.stored == old(self).stored,
                self.queue == old(self).queue,
                self.sequence == old(self).sequence,
                self.uid == old(self).uid,
            decreases row_ids@.len() - i,
        {
            self.fetching.remove(&row_ids[i]);
            proof {
                assert(ids.subrange(0, i + 1) =~= ids.subrange(0, i as int).push(ids[i as int]));
                ids.subrange(0, i as int).lemma_push_to_set_commute(ids[i as int]);
                assert(self.fetching@.dom() =~= old(self).fetching@.dom() - ids.subrange(0, i + 1).to_set());
            }
            i = i + 1;
        }
        assert(ids.subrange(0, row_ids@.len() as int) =~= ids);
    }

    /// Takes in rows fetched from the remote. A row stored locally in the
    /// meantime wins and the fetched copy is dropped; the others are stored
    /// and cached. The event lists the rows taken in.
    pub fn did_fetch_rows(&mut self, rows: Vec<Row>) -> (r: BlockEvent)
        requires
            old(self).wf(),
        ensures
            final(self).wf(),
            final(self).capacity() == old(self).capacity(),
            final(self).queued() == old(self).queued(),
            final(self).next_seq() == old(self).next_seq(),
            ({
                let f = fetch_fold(
                    FetchState {
                        stored: old(self).stored_rows(),
                        cached: old(self).cached(),
                        accepted: Seq::empty(),
                    },
                    old(self).capacity(),
                    rows@.map_values(|r: Row| r.view()),
                );
                &&& final(self).stored_rows() == f.stored
                &&& final(self).cached() == f.cached
                &&& r matches BlockEvent::DidFetchRow(a) && a@.map_values(|r: Row| r.view())
                    == f.accepted
            }),
            final(self).fetching_ids() == old(self).fetching_ids() - rows@.map_values(
                |r: Row| r.id@,
            ).to_set(),
    {
        let ghost ids = rows@.map_values(|r: Row| r.id@);
        let ghost vs = rows@.map_values(|r: Row| r.view());
        let ghost init = FetchState {
            stored: self.stored_rows(),
            cached: self.cached(),
            accepted: Seq::empty(),
        };
        let mut accepted: Vec<Row> = Vec::new();
        let mut i: usize = 0;
        while i < rows.len()
            invariant
                self.wf(),
                i <= rows@.len(),
                ids == rows@.map_values(|r: Row| r.id@),
                vs == rows@.map_values(|r: Row| r.view()),
                init.stored == old(self).stored_rows(),
                init.cached == old(self).cached(),
                init.accepted == Seq::<RowView>::empty(),
                self.capacity() == old(self).capacity(),
                self.queued() == old(self).queued(),
                self.next_seq() == old(self).next_seq(),
                ({
                    let f = fetch_fold(init, old(self).capacity(), vs.subrange(0, i as int));
                    &&& self.stored_rows() == f.stored
                    &&& self.cached() == f.cached
                    &&& accepted@.map_values(|r: Row| r.view()) == f.accepted
                }),
                self.fetching_ids() == old(self).fetching_ids() - ids.subrange(0, i as int).to_set(),
            decreases rows@.len() - i,
        {
            let ghost sr = self.stored_rows();
            let ghost f0 = fetch_fold(init, old(self).capacity(), vs.subrange(0, i as int));
            let ghost a0 = accepted@;
            proof {
                assert(vs.subrange(0, i + 1).drop_last() =~= vs.subrange(0, i as int));
                assert(vs.subrange(0, i + 1).last() == rows@[i as int].view());
            }
            self.fetching.remove(&rows[i].id);
            if !self.stored.contains_key(&rows[i].id) {
                let ghost rv = rows@[i as int].view();
                let row = rows[i].copy();
                proof {
                    self.lemma_put_views(rows@[i as int].id@, row);
                }
                self.stored.insert(rows[i].id.clone(), rows[i].copy());
                assert(rows_view(self.stored@) =~= sr.insert(rows@[i as int].id@, rv));
                self.put_row(rows[i].id.clone(), row);
                accepted.push(rows[i].copy());
                assert(accepted@.map_values(|r: Row| r.view()) =~= a0.map_values(|r: Row| r.view()).push(rv));
            } else {
                assert(sr.contains_key(rows@[i as int].id@));
            }
            proof {
                assert(ids[i as int] == rows@[i as int].id@);
                assert(ids.subrange(0, i + 1) =~= ids.subrange(0, i as int).push(ids[i as int]));
                ids.subrange(0, i as int).lemma_push_to_set_commute(ids[i as int]);
                assert(self.fetching_ids() =~= old(self).fetching_ids() - ids.subrange(0, i + 1).to_set());
            }
            i = i + 1;
        }
        assert(ids.subrange(0, rows@.len() as int) =~= ids);
        assert(vs.subrange(0, rows@.len() as int) =~= vs);
        BlockEvent::DidFetchRow(accepted)
    }
}

/// Name under which a row's icon id is derived.
pub const ICON_ID_KEY: &'static str = "icon_id";

/// Name under which a row's cover id is derived.
pub const COVER_ID_KEY: &'static str = "cover_id";

/// The meta map of a row after `url` is stored under the id derived from the
/// row id and `name`; unchanged when the row id is not a UUID.
pub open spec fn meta_after(m: Map<Seq<char>, Seq<char>>, row_id: Seq<char>, name: Seq<char>, url: Seq<char>) -> Map<
    Seq<char>,
    Seq<char>,
> {
    if uuid_parses(row_id) {
        m.insert(uuid_v5_text(row_id, name), url)
    } else {
        m
    }
}

pub open spec fn meta_view(m: Map<Seq<char>, String>) -> Map<Seq<char>, Seq<char>> {
    m.map_values(|s: String| s@)
}

/// Writes the icon and cover of a row into its meta map.
pub struct RowMetaUpdate {
    pub map: StrMap<String>,
    pub row_id: String,
}

impl RowMetaUpdate {
    pub fn new(map: StrMap<String>, row_id: String) -> (r: RowMetaUpdate)
        ensures
            r.map@ == map@,
            r.row_id == row_id,
    {
        RowMetaUpdate { map, row_id }
    }

    fn insert_named(self, name: &str, url: &str) -> (r: RowMetaUpdate)
        ensures
            r.row_id == self.row_id,
            meta_view(r.map@) == meta_after(meta_view(self.map@), self.row_id@, name@, url@),
    {
        let RowMetaUpdate { mut map, row_id } = self;
        match uuid_v5_of(&row_id, name) {
            Some(id) => {
                let ghost m0 = map@;
                let ghost k = id@;
                let v = url.to_owned();
                map.insert(id, v);
                assert(meta_view(map@) =~= meta_view(m0).insert(k, url@));
            },
            None => {},
        }
        RowMetaUpdate { map, row_id }
    }

    pub fn insert_icon(self, icon_url: &str) -> (r: RowMetaUpdate)
        ensures
            r.row_id == self.row_id,
            meta_view(r.map@) == meta_after(meta_view(self.map@), self.row_id@, ICON_ID_KEY@, icon_url@),
    {
        self.insert_named(ICON_ID_KEY, icon_url)
    }

    pub fn insert_cover(self, cover_url: &str) -> (r: RowMetaUpdate)
        ensures
            r.row_id == self.row_id,
            meta_view(r.map@) == meta_after(meta_view(self.map@), self.row_id@, COVER_ID_KEY@, cover_url@),
    {
        self.insert_named(COVER_ID_KEY, cover_url)
    }

    pub fn insert_icon_if_not_none(self, icon_url: Option<String>) -> (r: RowMetaUpdate)
        ensures
            r.row_id == self.row_id,
            icon_url is None ==> r.map@ == self.map@,
            icon_url matches Some(u) ==> meta_view(r.map@) == meta_after(meta_view(self.map@), self.row_id@, ICON_ID_KEY@, u@),
    {
        match icon_url {
            Some(icon) => self.insert_icon(icon.as_str()),
            None => self,
        }
    }

    pub fn insert_cover_if_not_none(self, cover_url: Option<String>) -> (r: RowMetaUpdate)
        ensures
            r.row_id == self.row_id,
            cover_url is None ==> r.map@ == self.map@,
            cover_url matches Some(u) ==> meta_view(r.map@) == meta_after(meta_view(self.map@), self.row_id@, COVER_ID_KEY@, u@),
    {
        match cover_url {
            Some(cover) => self.insert_cover(cover.as_str()),
            None => self,
        }
    }
}

impl RowMeta {
    /// The icon and cover of a row read from its meta map.
    pub fn from_map_ref(map: &StrMap<String>, row_id: &String) -> (r: RowMeta)
        ensures
            !uuid_parses(row_id@) ==> r.icon_url is None && r.cover_url is None,
            uuid_parses(row_id@) ==> (r.icon_url is Some <==> map@.contains_key(uuid_v5_text(row_id@, ICON_ID_KEY@)))
                && (r.icon_url matches Some(u) ==> u == map@[uuid_v5_text(row_id@, ICON_ID_KEY@)])
                && (r.cover_url is Some <==> map@.contains_key(uuid_v5_text(row_id@, COVER_ID_KEY@)))
                && (r.cover_url matches Some(u) ==> u == map@[uuid_v5_text(row_id@, COVER_ID_KEY@)]),
    {
        let icon_url = match uuid_v5_of(row_id, ICON_ID_KEY) {
            Some(id) => match map.get(&id) {
                Some(u) => Some(u.clone()),
                None => None,
            },
            None => None,
        };
        let cover_url = match uuid_v5_of(row_id, COVER_ID_KEY) {
            Some(id) => match map.get(&id) {
                Some(u) => Some(u.clone()),
                None => None,
            },
            None => None,
        };
        RowMeta { icon_url, cover_url }
    }
}

impl Block {
    /// The icon and cover of row `row_id`, read as `get_row` reads; empty
    /// for a row that is neither cached nor stored.
    pub fn get_row_meta(&mut self, row_id: &String) -> (r: RowMeta)
        requires
            old(self).wf(),
        ensures
            read_effects(*old(self), row_id@, *final(self)),
            r.icon_url == read_row(old(self).stored_rows(), row_id@).icon_url,
            r.cover_url == read_row(old(self).stored_rows(), row_id@).cover_url,
    {
        match self.get_or_init_row(row_id) {
            Some(row) => row.meta,
            None => RowMeta::empty(),
        }
    }

    /// Sets the icon and cover of row `row_id` if it is in memory.
    pub fn update_row_meta(&mut self, row_id: &String, icon_url: Option<String>, cover_url: Option<String>) -> (r: bool)
        requires
            old(self).wf(),
        ensures
            final(self).wf(),
            r == cached_key(old(self).cached(), row_id@),
            r ==> exists|i: int|
                0 <= i < old(self).cached().len() && (#[trigger] old(self).cached()[i]).0 == row_id@
                    && final(self).cached() == seq![
                    (row_id@, change_row(old(self).cached()[i].1, RowChange::Meta { icon_url, cover_url })),
                ] + old(self).cached().remove(i) && final(self).stored_rows() == old(self).stored_rows().insert(
                    row_id@,
                    change_row(old(self).cached()[i].1, RowChange::Meta { icon_url, cover_url }),
                ),
            !r ==> final(self).cached() == old(self).cached() && final(self).stored_rows() == old(
                self,
            ).stored_rows(),
    {
        self.update_row(row_id, RowChange::Meta { icon_url, cover_url })
    }
}

} // verus!
