use vstd::prelude::*;

use crate::keys::{
    clock_from_key, clock_of, is_record, key_is_record, lemma_record_key, make_record_key,
    make_record_prefix, make_doc_update_key, record_key, record_prefix, Clock, SNAPSHOT_KIND, UPDATE_KIND,
};
use crate::keys::{lemma_record_key_of, lemma_record_key_order};
use crate::kv::{inserted, lemma_lex_asymmetric, lex_lt, sorted_keys, MemKv};

verus! {

/// Errors of the update log.
#[derive(Debug)]
pub enum CollabLogError {
    /// The object already has records.
    AlreadyExists,
    /// The object already has an update at the largest clock.
    ClockExhausted,
}

pub open spec fn is_update_of(e: (Seq<u8>, Seq<u8>), tenant: i64, object: Seq<u8>) -> bool {
    is_record(e.0, tenant, object, UPDATE_KIND)
}

pub open spec fn is_snapshot_of(e: (Seq<u8>, Seq<u8>), tenant: i64, object: Seq<u8>) -> bool {
    is_record(e.0, tenant, object, SNAPSHOT_KIND)
}

/// An update or snapshot record of the object.
pub open spec fn is_log_record(e: (Seq<u8>, Seq<u8>), tenant: i64, object: Seq<u8>) -> bool {
    is_update_of(e, tenant, object) || is_snapshot_of(e, tenant, object)
}

/// `c` is one more than the largest clock of the object's updates and
/// snapshots, or 0 when it has none.
pub open spec fn clock_bound(s: Seq<(Seq<u8>, Seq<u8>)>, tenant: i64, object: Seq<u8>, c: int) -> bool {
    &&& c >= 0
    &&& forall|i: int|
        0 <= i < s.len() && is_log_record(#[trigger] s[i], tenant, object) ==> clock_of(s[i].0) < c
    &&& c > 0 ==> exists|i: int|
        0 <= i < s.len() && is_log_record(#[trigger] s[i], tenant, object) && clock_of(s[i].0) == c
            - 1
}

/// Clocks are dense: a store has one next clock per object. After an append
/// at clock `c` the next clock is `c + 1`, so two appends in a row get two
/// distinct, consecutive clocks.
pub proof fn lemma_clock_bound_unique(
    s: Seq<(Seq<u8>, Seq<u8>)>,
    tenant: i64,
    object: Seq<u8>,
    c1: int,
    c2: int,
)
    requires
        clock_bound(s, tenant, object, c1),
        clock_bound(s, tenant, object, c2),
    ensures
        c1 == c2,
{
    if c1 < c2 {
        let i = choose|i: int|
            0 <= i < s.len() && is_log_record(#[trigger] s[i], tenant, object) && clock_of(s[i].0)
                == c2 - 1;
        assert(clock_of(s[i].0) < c1);
    } else if c2 < c1 {
        let i = choose|i: int|
            0 <= i < s.len() && is_log_record(#[trigger] s[i], tenant, object) && clock_of(s[i].0)
                == c1 - 1;
        assert(clock_of(s[i].0) < c2);
    }
}

/// The clock the next update of the object gets: one more than the largest
/// clock of its updates and snapshots, or 0 when it has none. An update made
/// after a snapshot thus sorts after it.
pub fn next_clock(store: &MemKv, tenant: i64, object: &[u8]) -> (r: Result<Clock, CollabLogError>)
    ensures
        r matches Ok(c) ==> clock_bound(store.view(), tenant, object@, c as int),
        r is Err ==> (r matches Err(CollabLogError::ClockExhausted)) && exists|i: int|
            0 <= i < store.view().len() && is_log_record(#[trigger] store.view()[i], tenant, object@)
                && clock_of(store.view()[i].0) == u64::MAX,
        (forall|i: int|
            0 <= i < store.view().len() ==> !is_log_record(#[trigger] store.view()[i], tenant, object@))
            ==> r matches Ok(0),
{
    let prefix = make_record_prefix(tenant, object, UPDATE_KIND);
    let snap = make_record_prefix(tenant, object, SNAPSHOT_KIND);
    let ghost s = store.view();
    let n = store.len();
    let mut best: Option<u64> = None;
    let mut i: usize = 0;
    while i < n
        invariant
            n == s.len(),
            s == store.view(),
            prefix@ == record_prefix(tenant, object@, UPDATE_KIND),
            snap@ == record_prefix(tenant, object@, SNAPSHOT_KIND),
            i <= n,
            best is None ==> forall|j: int| 0 <= j < i ==> !is_log_record(#[trigger] s[j], tenant, object@),
            best matches Some(b) ==> (forall|j: int|
                0 <= j < i && is_log_record(#[trigger] s[j], tenant, object@) ==> clock_of(s[j].0)
                    <= b) && exists|j: int|
                0 <= j < i && is_log_record(#[trigger] s[j], tenant, object@) && clock_of(s[j].0)
                    == b,
        decreases n - i,
    {
        let e = store.entry_at(i);
        if key_is_record(e.key.as_slice(), prefix.as_slice()) || key_is_record(
            e.key.as_slice(),
            snap.as_slice(),
        ) {
            let c = clock_from_key(e.key.as_slice());
            match best {
                None => {
                    best = Some(c);
                },
                Some(b) => {
                    if c > b {
                        best = Some(c);
                    }
                },
            }
        }
        i = i + 1;
    }
    match best {
        None => Ok(0),
        Some(b) => {
            if b == u64::MAX {
                Err(CollabLogError::ClockExhausted)
            } else {
                Ok(b + 1)
            }
        },
    }
}

/// Appends an update to the object's log at its next clock.
pub fn append(store: &mut MemKv, tenant: i64, object: &[u8], update: &[u8]) -> (r: Result<
    Clock,
    CollabLogError,
>)
    requires
        old(store).wf(),
    ensures
        final(store).wf(),
        r is Err ==> (r matches Err(CollabLogError::ClockExhausted)) && final(store).view() == old(
            store,
        ).view(),
        r matches Ok(c) ==> {
            &&& clock_bound(old(store).view(), tenant, object@, c as int)
            &&& clock_bound(final(store).view(), tenant, object@, c + 1)
            &&& exists|p: int|
                0 <= p <= old(store).view().len() && final(store).view() == old(store).view().insert(
                    p,
                    (record_key(tenant, object@, UPDATE_KIND, c), update@),
                )
            &&& update_values(final(store).view(), tenant, object@) == update_values(
                old(store).view(),
                tenant,
                object@,
            ).push(update@)
        },
        (forall|i: int|
            0 <= i < old(store).view().len() ==> clock_of(#[trigger] old(store).view()[i].0)
                < u64::MAX || !is_log_record(old(store).view()[i], tenant, object@)) ==> r is Ok,
{
    let c = match next_clock(store, tenant, object) {
        Ok(c) => c,
        Err(e) => return Err(e),
    };
    let key = make_doc_update_key(tenant, object, c);
    let ghost s = store.view();
    proof {
        lemma_record_key(tenant, object@, UPDATE_KIND, c);
        assert forall|i: int| 0 <= i < s.len() implies (#[trigger] s[i]).0 != key@ by {
            if s[i].0 == key@ {
                assert(is_log_record(s[i], tenant, object@));
            }
        }
    }
    let _ = store.insert(key.as_slice(), update);
    proof {
        let t = store.view();
        let p = choose|p: int|
            0 <= p <= s.len() && (forall|i: int| 0 <= i < s.len() ==> (#[trigger] s[i]).0 != key@)
                && t == s.insert(p, (key@, update@));
        assert(t == s.insert(p, (key@, update@)));
        assert(is_log_record(t[p], tenant, object@));
        lemma_append_then_load(s, tenant, object@, c, update@, p);
        assert forall|i: int| 0 <= i < t.len() && is_log_record(#[trigger] t[i], tenant, object@)
            implies clock_of(t[i].0) < c + 1 by {
            if i < p {
                assert(t[i] == s[i]);
            } else if i > p {
                assert(t[i] == s[i - 1]);
            }
        }
    }
    Ok(c)
}

pub open spec fn update_pred(tenant: i64, object: Seq<u8>) -> spec_fn((Seq<u8>, Seq<u8>)) -> bool {
    |e: (Seq<u8>, Seq<u8>)| is_update_of(e, tenant, object)
}

/// The payloads of the object's updates, in the order of the entries.
pub open spec fn update_values(s: Seq<(Seq<u8>, Seq<u8>)>, tenant: i64, object: Seq<u8>) -> Seq<
    Seq<u8>,
> {
    s.filter(update_pred(tenant, object)).map_values(|e: (Seq<u8>, Seq<u8>)| e.1)
}

proof fn lemma_filter_none(s: Seq<(Seq<u8>, Seq<u8>)>, pred: spec_fn((Seq<u8>, Seq<u8>)) -> bool)
    requires
        forall|j: int| 0 <= j < s.len() ==> !pred(#[trigger] s[j]),
    ensures
        s.filter(pred) == Seq::<(Seq<u8>, Seq<u8>)>::empty(),
    decreases s.len(),
{
    reveal(Seq::filter);
    if s.len() > 0 {
        let d = s.drop_last();
        assert forall|j: int| 0 <= j < d.len() implies !pred(#[trigger] d[j]) by {
            assert(d[j] == s[j]);
        }
        lemma_filter_none(d, pred);
        assert(!pred(s[s.len() - 1]));
    }
}

/// Loading after an append gives what loading gave before, then the appended
/// update: the update log replays appends in the order they were made.
pub proof fn lemma_append_then_load(
    s: Seq<(Seq<u8>, Seq<u8>)>,
    tenant: i64,
    object: Seq<u8>,
    c: u64,
    u: Seq<u8>,
    p: int,
)
    requires
        0 <= p <= s.len(),
        sorted_keys(s.insert(p, (record_key(tenant, object, UPDATE_KIND, c), u))),
        clock_bound(s, tenant, object, c as int),
    ensures
        update_values(s.insert(p, (record_key(tenant, object, UPDATE_KIND, c), u)), tenant, object)
            == update_values(s, tenant, object).push(u),
{
    let key = record_key(tenant, object, UPDATE_KIND, c);
    let x = (key, u);
    let f = s.insert(p, x);
    let pred = update_pred(tenant, object);
    let a = s.subrange(0, p);
    let b = s.subrange(p, s.len() as int);
    assert(s =~= a + b);
    assert(f =~= a.push(x) + b);
    assert forall|j: int| 0 <= j < b.len() implies !pred(#[trigger] b[j]) by {
        if pred(b[j]) {
            assert(s[p + j] == b[j]);
            assert(is_update_of(s[p + j], tenant, object));
            assert(is_log_record(s[p + j], tenant, object));
            let d = clock_of(b[j].0);
            lemma_record_key_of(b[j].0, tenant, object, UPDATE_KIND);
            lemma_record_key_order(tenant, object, UPDATE_KIND, d, c);
            assert(f[p] == x);
            assert(f[p + 1 + j] == b[j]);
            assert(lex_lt(f[p].0, f[p + 1 + j].0));
            lemma_lex_asymmetric(b[j].0, key);
        }
    }
    lemma_filter_none(b, pred);
    Seq::filter_distributes_over_add(a, b, pred);
    Seq::filter_distributes_over_add(a.push(x), b, pred);
    a.lemma_filter_push(x, pred);
    lemma_record_key(tenant, object, UPDATE_KIND, c);
    assert(pred(x));
    assert(a.filter(pred) + b.filter(pred) =~= a.filter(pred));
    assert(a.push(x).filter(pred) + b.filter(pred) =~= a.filter(pred).push(x));
    assert(a.filter(pred).push(x).map_values(|e: (Seq<u8>, Seq<u8>)| e.1) =~= a.filter(
        pred,
    ).map_values(|e: (Seq<u8>, Seq<u8>)| e.1).push(u));
}

/// All the object's updates, in key order.
pub fn load_updates(store: &MemKv, tenant: i64, object: &[u8]) -> (r: Vec<Vec<u8>>)
    ensures
        r@.map_values(|u: Vec<u8>| u@) == update_values(store.view(), tenant, object@),
{
    let prefix = make_record_prefix(tenant, object, UPDATE_KIND);
    let ghost s = store.view();
    let ghost p = update_pred(tenant, object@);
    let n = store.len();
    let mut out: Vec<Vec<u8>> = Vec::new();
    let mut i: usize = 0;
    while i < n
        invariant
            n == s.len(),
            s == store.view(),
            prefix@ == record_prefix(tenant, object@, UPDATE_KIND),
            p == update_pred(tenant, object@),
            i <= n,
            out@.map_values(|u: Vec<u8>| u@) == s.subrange(0, i as int).filter(p).map_values(
                |e: (Seq<u8>, Seq<u8>)| e.1,
            ),
        decreases n - i,
    {
        let e = store.entry_at(i);
        proof {
            assert(s.subrange(0, i + 1).drop_last() =~= s.subrange(0, i as int));
            reveal(Seq::filter);
        }
        if key_is_record(e.key.as_slice(), prefix.as_slice()) {
            let ghost o0 = out@;
            out.push(vstd::slice::slice_to_vec(e.value.as_slice()));
            proof {
                assert(out@.map_values(|u: Vec<u8>| u@) =~= o0.map_values(|u: Vec<u8>| u@).push(
                    s[i as int].1,
                ));
                assert(s.subrange(0, i + 1).filter(p) == s.subrange(0, i as int).filter(p).push(
                    s[i as int],
                ));
                assert(s.subrange(0, i + 1).filter(p).map_values(|e: (Seq<u8>, Seq<u8>)| e.1)
                    =~= s.subrange(0, i as int).filter(p).map_values(
                    |e: (Seq<u8>, Seq<u8>)| e.1,
                ).push(s[i as int].1));
            }
        } else {
            assert(s.subrange(0, i + 1).filter(p) == s.subrange(0, i as int).filter(p));
        }
        i = i + 1;
    }
    assert(s.subrange(0, n as int) =~= s);
    out
}

/// Whether the object has any record, update or snapshot.
pub fn is_exist(store: &MemKv, tenant: i64, object: &[u8]) -> (r: bool)
    ensures
        r == exists|i: int|
            0 <= i < store.view().len() && (is_record(
                #[trigger] store.view()[i].0,
                tenant,
                object@,
                UPDATE_KIND,
            ) || is_record(store.view()[i].0, tenant, object@, SNAPSHOT_KIND)),
{
    let up = make_record_prefix(tenant, object, UPDATE_KIND);
    let snap = make_record_prefix(tenant, object, SNAPSHOT_KIND);
    let n = store.len();
    let mut i: usize = 0;
    while i < n
        invariant
            n == store.view().len(),
            up@ == record_prefix(tenant, object@, UPDATE_KIND),
            snap@ == record_prefix(tenant, object@, SNAPSHOT_KIND),
            i <= n,
            forall|j: int|
                0 <= j < i ==> !is_record(#[trigger] store.view()[j].0, tenant, object@, UPDATE_KIND)
                    && !is_record(store.view()[j].0, tenant, object@, SNAPSHOT_KIND),
        decreases n - i,
    {
        let e = store.entry_at(i);
        if key_is_record(e.key.as_slice(), up.as_slice()) || key_is_record(
            e.key.as_slice(),
            snap.as_slice(),
        ) {
            assert(store.view()[i as int].0 == e.key@);
            assert(is_record(store.view()[i as int].0, tenant, object@, UPDATE_KIND) || is_record(
                store.view()[i as int].0,
                tenant,
                object@,
                SNAPSHOT_KIND,
            ));
            return true;
        }
        i = i + 1;
    }
    false
}

/// Starts the object's log with its initial state at clock 0; fails when the
/// object already has a record.
pub fn create(store: &mut MemKv, tenant: i64, object: &[u8], initial: &[u8]) -> (r: Result<
    (),
    CollabLogError,
>)
    requires
        old(store).wf(),
    ensures
        final(store).wf(),
        r is Err <==> exists|i: int|
            0 <= i < old(store).view().len() && (is_record(
                #[trigger] old(store).view()[i].0,
                tenant,
                object@,
                UPDATE_KIND,
            ) || is_record(old(store).view()[i].0, tenant, object@, SNAPSHOT_KIND)),
        r is Err ==> (r matches Err(CollabLogError::AlreadyExists)) && final(store).view() == old(
            store,
        ).view(),
        r is Ok ==> exists|p: int|
            0 <= p <= old(store).view().len() && final(store).view() == old(store).view().insert(
                p,
                (record_key(tenant, object@, UPDATE_KIND, 0), initial@),
            ),
{
    if is_exist(store, tenant, object) {
        return Err(CollabLogError::AlreadyExists);
    }
    let key = make_doc_update_key(tenant, object, 0);
    let ghost s = store.view();
    proof {
        lemma_record_key(tenant, object@, UPDATE_KIND, 0);
        assert forall|i: int| 0 <= i < s.len() implies (#[trigger] s[i]).0 != key@ by {
            if s[i].0 == key@ {
                assert(is_record(s[i].0, tenant, object@, UPDATE_KIND));
            }
        }
    }
    let _ = store.insert(key.as_slice(), initial);
    Ok(())
}

/// Updates of the object with a clock above `floor`; all of them when there
/// is no floor.
pub open spec fn after_pred(tenant: i64, object: Seq<u8>, floor: Option<u64>) -> spec_fn(
    (Seq<u8>, Seq<u8>),
) -> bool {
    |e: (Seq<u8>, Seq<u8>)|
        is_update_of(e, tenant, object) && match floor {
            Some(c) => clock_of(e.0) > c,
            None => true,
        }
}

pub open spec fn updates_after(s: Seq<(Seq<u8>, Seq<u8>)>, tenant: i64, object: Seq<u8>, floor: Option<u64>) -> Seq<
    Seq<u8>,
> {
    s.filter(after_pred(tenant, object, floor)).map_values(|e: (Seq<u8>, Seq<u8>)| e.1)
}

/// Entry `i` is the object's snapshot with the largest clock.
pub open spec fn latest_snapshot_at(s: Seq<(Seq<u8>, Seq<u8>)>, tenant: i64, object: Seq<u8>, i: int) -> bool {
    &&& 0 <= i < s.len()
    &&& is_snapshot_of(s[i], tenant, object)
    &&& forall|j: int|
        0 <= j < s.len() && is_snapshot_of(#[trigger] s[j], tenant, object) ==> clock_of(s[j].0)
            <= clock_of(s[i].0)
}

fn collect_updates(store: &MemKv, tenant: i64, object: &[u8], floor: Option<u64>) -> (r: Vec<Vec<u8>>)
    ensures
        r@.map_values(|u: Vec<u8>| u@) == updates_after(store.view(), tenant, object@, floor),
{
    let prefix = make_record_prefix(tenant, object, UPDATE_KIND);
    let ghost s = store.view();
    let ghost p = after_pred(tenant, object@, floor);
    let n = store.len();
    let mut out: Vec<Vec<u8>> = Vec::new();
    let mut i: usize = 0;
    while i < n
        invariant
            n == s.len(),
            s == store.view(),
            prefix@ == record_prefix(tenant, object@, UPDATE_KIND),
            p == after_pred(tenant, object@, floor),
            i <= n,
            out@.map_values(|u: Vec<u8>| u@) == s.subrange(0, i as int).filter(p).map_values(
                |e: (Seq<u8>, Seq<u8>)| e.1,
            ),
        decreases n - i,
    {
        let e = store.entry_at(i);
        proof {
            assert(s.subrange(0, i + 1).drop_last() =~= s.subrange(0, i as int));
            reveal(Seq::filter);
        }
        let take = key_is_record(e.key.as_slice(), prefix.as_slice()) && match floor {
            Some(c) => clock_from_key(e.key.as_slice()) > c,
            None => true,
        };
        if take {
            let ghost o0 = out@;
            out.push(vstd::slice::slice_to_vec(e.value.as_slice()));
            proof {
                assert(p(s[i as int]));
                assert(out@.map_values(|u: Vec<u8>| u@) =~= o0.map_values(|u: Vec<u8>| u@).push(
                    s[i as int].1,
                ));
                assert(s.subrange(0, i + 1).filter(p) == s.subrange(0, i as int).filter(p).push(
                    s[i as int],
                ));
                assert(s.subrange(0, i + 1).filter(p).map_values(|e: (Seq<u8>, Seq<u8>)| e.1)
                    =~= s.subrange(0, i as int).filter(p).map_values(
                    |e: (Seq<u8>, Seq<u8>)| e.1,
                ).push(s[i as int].1));
            }
        } else {
            assert(!p(s[i as int]));
            assert(s.subrange(0, i + 1).filter(p) == s.subrange(0, i as int).filter(p));
        }
        i = i + 1;
    }
    assert(s.subrange(0, n as int) =~= s);
    out
}

/// What loading the object gives: its latest snapshot, then its updates with
/// a later clock; without a snapshot, all its updates.
pub fn load(store: &MemKv, tenant: i64, object: &[u8]) -> (r: Vec<Vec<u8>>)
    ensures
        ({
            let s = store.view();
            let rv = r@.map_values(|u: Vec<u8>| u@);
            &&& (forall|i: int| 0 <= i < s.len() ==> !is_snapshot_of(#[trigger] s[i], tenant, object@))
                ==> rv == update_values(s, tenant, object@)
            &&& (exists|i: int| 0 <= i < s.len() && is_snapshot_of(#[trigger] s[i], tenant, object@))
                ==> exists|i: int|
                latest_snapshot_at(s, tenant, object@, i) && rv == seq![s[i].1] + updates_after(
                    s,
                    tenant,
                    object@,
                    Some(clock_of(s[i].0)),
                )
        }),
{
    let snap = make_record_prefix(tenant, object, SNAPSHOT_KIND);
    let ghost s = store.view();
    let n = store.len();
    let mut best: Option<(usize, u64)> = None;
    let mut i: usize = 0;
    while i < n
        invariant
            n == s.len(),
            s == store.view(),
            snap@ == record_prefix(tenant, object@, SNAPSHOT_KIND),
            i <= n,
            best is None ==> forall|j: int| 0 <= j < i ==> !is_snapshot_of(#[trigger] s[j], tenant, object@),
            best matches Some((bi, bc)) ==> bi < i && is_snapshot_of(s[bi as int], tenant, object@)
                && clock_of(s[bi as int].0) == bc && forall|j: int|
                0 <= j < i && is_snapshot_of(#[trigger] s[j], tenant, object@) ==> clock_of(s[j].0) <= bc,
        decreases n - i,
    {
        let e = store.entry_at(i);
        if key_is_record(e.key.as_slice(), snap.as_slice()) {
            let c = clock_from_key(e.key.as_slice());
            match best {
                None => {
                    best = Some((i, c));
                },
                Some((_, bc)) => {
                    if c > bc {
                        best = Some((i, c));
                    }
                },
            }
        }
        i = i + 1;
    }
    match best {
        None => {
            let r = collect_updates(store, tenant, object, None);
            proof {
                assert(after_pred(tenant, object@, None) =~= update_pred(tenant, object@));
            }
            r
        },
        Some((bi, bc)) => {
            let e = store.entry_at(bi);
            let mut r: Vec<Vec<u8>> = Vec::new();
            r.push(vstd::slice::slice_to_vec(e.value.as_slice()));
            let mut rest = collect_updates(store, tenant, object, Some(bc));
            let ghost r0 = r@;
            let ghost rs = rest@;
            r.append(&mut rest);
            proof {
                assert(latest_snapshot_at(s, tenant, object@, bi as int));
                assert(r@.map_values(|u: Vec<u8>| u@) =~= seq![s[bi as int].1] + rs.map_values(
                    |u: Vec<u8>| u@,
                ));
            }
            r
        },
    }
}

/// Writes the snapshot of the object at clock `up_to`, then drops its updates
/// with a clock up to `up_to`, which the snapshot holds.
pub fn compact_to_snapshot(
    store: &mut MemKv,
    tenant: i64,
    object: &[u8],
    snapshot: &[u8],
    up_to: Clock,
)
    requires
        old(store).wf(),
    ensures
        final(store).wf(),
        exists|s1: Seq<(Seq<u8>, Seq<u8>)>|
            #[trigger] inserted(old(store).view(), record_key(tenant, object@, SNAPSHOT_KIND, up_to), snapshot@, s1)
                && final(store).view() == s1.filter(
                |e: (Seq<u8>, Seq<u8>)| !(is_update_of(e, tenant, object@) && clock_of(e.0) <= up_to),
            ),
{
    let key = make_record_key(tenant, object, SNAPSHOT_KIND, up_to);
    let _ = store.insert(key.as_slice(), snapshot);
    let ghost s1 = store.view();
    let ghost p = |k: Seq<u8>| !(is_record(k, tenant, object@, UPDATE_KIND) && clock_of(k) <= up_to);
    let keep = |k: &[u8]| -> (b: bool)
        ensures
            b == !(is_record(k@, tenant, object@, UPDATE_KIND) && clock_of(k@) <= up_to),
        {
            let prefix = make_record_prefix(tenant, object, UPDATE_KIND);
            !(key_is_record(k, prefix.as_slice()) && clock_from_key(k) <= up_to)
        };
    store.retain_keys(keep, Ghost(p));
    proof {
        assert((|e: (Seq<u8>, Seq<u8>)| p(e.0)) =~= (|e: (Seq<u8>, Seq<u8>)|
            !(is_update_of(e, tenant, object@) && clock_of(e.0) <= up_to)));
        assert(inserted(old(store).view(), record_key(tenant, object@, SNAPSHOT_KIND, up_to), snapshot@, s1));
    }
}

/// Default number of appended updates after which a snapshot is taken.
pub const DEFAULT_SNAPSHOT_PER_UPDATE: u64 = 20;

/// Options of the update log.
#[derive(Debug, Clone, Copy)]
pub struct CollabPersistenceConfig {
    /// A snapshot is taken after this many appended updates; 0 never takes one.
    pub snapshot_per_update: u64,
}

impl CollabPersistenceConfig {
    pub fn new() -> (r: CollabPersistenceConfig)
        ensures
            r.snapshot_per_update == DEFAULT_SNAPSHOT_PER_UPDATE,
    {
        CollabPersistenceConfig { snapshot_per_update: DEFAULT_SNAPSHOT_PER_UPDATE }
    }

    pub fn snapshot_per_update(self, n: u64) -> (r: CollabPersistenceConfig)
        ensures
            r.snapshot_per_update == n,
    {
        CollabPersistenceConfig { snapshot_per_update: n }
    }

    /// Whether a snapshot is due after `updates_since_snapshot` appended updates.
    pub fn should_snapshot(&self, updates_since_snapshot: u64) -> (r: bool)
        ensures
            r == (self.snapshot_per_update > 0 && updates_since_snapshot >= self.snapshot_per_update),
    {
        self.snapshot_per_update > 0 && updates_since_snapshot >= self.snapshot_per_update
    }
}

} // verus!
