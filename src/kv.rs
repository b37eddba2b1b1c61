use vstd::prelude::*;

verus! {

/// Errors of a key-value store.
#[derive(Debug)]
pub enum PersistenceError {
    /// The store refused an operation.
    Backend(String),
}

/// `a` sorts before `b`: `a` is a proper prefix of `b`, or the first byte in
/// which they differ is smaller in `a`.
pub open spec fn lex_lt(a: Seq<u8>, b: Seq<u8>) -> bool {
    exists|i: int| lex_witness(a, b, i)
}

pub open spec fn lex_witness(a: Seq<u8>, b: Seq<u8>, i: int) -> bool {
    &&& 0 <= i <= a.len()
    &&& i < b.len()
    &&& forall|j: int| 0 <= j < i ==> a[j] == b[j]
    &&& (i == a.len() || a[i] < b[i])
}

pub open spec fn lex_le(a: Seq<u8>, b: Seq<u8>) -> bool {
    a == b || lex_lt(a, b)
}

pub proof fn lemma_lex_irreflexive(a: Seq<u8>)
    ensures
        !lex_lt(a, a),
{
}

pub proof fn lemma_lex_transitive(a: Seq<u8>, b: Seq<u8>, c: Seq<u8>)
    requires
        lex_lt(a, b),
        lex_lt(b, c),
    ensures
        lex_lt(a, c),
{
    let i = choose|i: int| lex_witness(a, b, i);
    let j = choose|j: int| lex_witness(b, c, j);
    if i < j {
        assert(b[i] == c[i]);
        assert(lex_witness(a, c, i));
    } else if j < i {
        assert(a[j] == b[j]);
        assert(lex_witness(a, c, j));
    } else {
        assert(lex_witness(a, c, i));
    }
}

pub proof fn lemma_lex_asymmetric(a: Seq<u8>, b: Seq<u8>)
    requires
        lex_lt(a, b),
    ensures
        !lex_lt(b, a),
        a != b,
{
    if lex_lt(b, a) {
        lemma_lex_transitive(a, b, a);
    }
}

/// Three-way comparison of byte strings: negative, zero or positive as `a`
/// sorts before, equal to, or after `b`.
pub fn compare_bytes(a: &[u8], b: &[u8]) -> (r: i8)
    ensures
        r < 0 <==> lex_lt(a@, b@),
        r == 0 <==> a@ == b@,
        r > 0 <==> lex_lt(b@, a@),
{
    let mut i: usize = 0;
    while i < a.len() && i < b.len() && a[i] == b[i]
        invariant
            i <= a@.len(),
            i <= b@.len(),
            forall|j: int| 0 <= j < i ==> a@[j] == b@[j],
        decreases a@.len() - i,
    {
        i = i + 1;
    }
    if i == a.len() && i == b.len() {
        assert(a@ =~= b@);
        proof {
            lemma_lex_irreflexive(a@);
        }
        0
    } else if i == a.len() {
        assert(lex_witness(a@, b@, i as int));
        proof {
            lemma_lex_asymmetric(a@, b@);
        }
        -1
    } else if i == b.len() {
        assert(lex_witness(b@, a@, i as int));
        proof {
            lemma_lex_asymmetric(b@, a@);
        }
        1
    } else if a[i] < b[i] {
        assert(lex_witness(a@, b@, i as int));
        proof {
            lemma_lex_asymmetric(a@, b@);
        }
        -1
    } else {
        assert(lex_witness(b@, a@, i as int));
        proof {
            lemma_lex_asymmetric(b@, a@);
        }
        1
    }
}

/// `t` is `s` after `v` is stored under `k`: the entry of `k` is replaced, or
/// a new entry goes in at a place that keeps the keys ordered.
pub open spec fn inserted(s: Seq<(Seq<u8>, Seq<u8>)>, k: Seq<u8>, v: Seq<u8>, t: Seq<(Seq<u8>, Seq<u8>)>) -> bool {
    ||| exists|i: int| 0 <= i < s.len() && s[i].0 == k && t == s.update(i, (k, v))
    ||| exists|p: int|
        0 <= p <= s.len() && (forall|i: int| 0 <= i < s.len() ==> (#[trigger] s[i]).0 != k) && t
            == s.insert(p, (k, v))
}

/// A stored key and its value.
#[derive(Debug)]
pub struct KvEntry {
    pub key: Vec<u8>,
    pub value: Vec<u8>,
}

/// A key-value entry.
pub trait KVEntry {
    fn key(&self) -> &[u8];
    fn value(&self) -> &[u8];
}

impl KVEntry for KvEntry {
    fn key(&self) -> &[u8] {
        self.key.as_slice()
    }

    fn value(&self) -> &[u8] {
        self.value.as_slice()
    }
}

pub open spec fn entry_view(e: KvEntry) -> (Seq<u8>, Seq<u8>) {
    (e.key@, e.value@)
}

pub open spec fn entries_view(s: Seq<KvEntry>) -> Seq<(Seq<u8>, Seq<u8>)> {
    s.map_values(|e: KvEntry| entry_view(e))
}

/// Keys strictly increase along `s`.
pub open spec fn sorted_keys(s: Seq<(Seq<u8>, Seq<u8>)>) -> bool {
    forall|i: int, j: int| 0 <= i < j < s.len() ==> lex_lt(#[trigger] s[i].0, #[trigger] s[j].0)
}

/// `k` lies in the half-open range `[lo, hi)`; no `lo` means no lower bound.
pub open spec fn in_range(k: Seq<u8>, lo: Option<Seq<u8>>, hi: Seq<u8>) -> bool {
    &&& match lo {
        Some(l) => lex_le(l, k),
        None => true,
    }
    &&& lex_lt(k, hi)
}

/// The value stored under `k`, if any.
pub open spec fn lookup(s: Seq<(Seq<u8>, Seq<u8>)>, k: Seq<u8>) -> Option<Seq<u8>> {
    if exists|i: int| 0 <= i < s.len() && (#[trigger] s[i]).0 == k {
        Some(s[choose|i: int| 0 <= i < s.len() && (#[trigger] s[i]).0 == k].1)
    } else {
        None
    }
}

proof fn lemma_lookup_at(s: Seq<(Seq<u8>, Seq<u8>)>, i: int)
    requires
        sorted_keys(s),
        0 <= i < s.len(),
    ensures
        lookup(s, s[i].0) == Some(s[i].1),
{
    let j = choose|j: int| 0 <= j < s.len() && (#[trigger] s[j]).0 == s[i].0;
    if j < i {
        lemma_lex_asymmetric(s[j].0, s[i].0);
    } else if i < j {
        lemma_lex_asymmetric(s[i].0, s[j].0);
    }
}

/// Each element of `s.filter(p)` is one of `s`, and the filter keeps the key order.
pub proof fn lemma_filter_sorted(s: Seq<(Seq<u8>, Seq<u8>)>, p: spec_fn((Seq<u8>, Seq<u8>)) -> bool)
    requires
        sorted_keys(s),
    ensures
        sorted_keys(s.filter(p)),
        forall|i: int|
            0 <= i < s.filter(p).len() ==> exists|k: int|
                0 <= k < s.len() && s[k] == #[trigger] s.filter(p)[i],
    decreases s.len(),
{
    reveal(Seq::filter);
    if s.len() > 0 {
        let d = s.drop_last();
        assert forall|a: int, b: int| 0 <= a < b < d.len() implies lex_lt(
            #[trigger] d[a].0,
            #[trigger] d[b].0,
        ) by {
            assert(lex_lt(s[a].0, s[b].0));
        }
        lemma_filter_sorted(d, p);
        let fd = d.filter(p);
        let f = s.filter(p);
        assert forall|i: int| 0 <= i < f.len() implies exists|k: int|
            0 <= k < s.len() && s[k] == #[trigger] f[i] by {
            if i < fd.len() {
                let k = choose|k: int| 0 <= k < d.len() && d[k] == #[trigger] fd[i];
                assert(s[k] == f[i]);
            } else {
                assert(s[s.len() - 1] == f[i]);
            }
        }
        assert forall|a: int, b: int| 0 <= a < b < f.len() implies lex_lt(
            #[trigger] f[a].0,
            #[trigger] f[b].0,
        ) by {
            if b < fd.len() {
                assert(lex_lt(fd[a].0, fd[b].0));
            } else {
                let k = choose|k: int| 0 <= k < d.len() && d[k] == #[trigger] fd[a];
                assert(lex_lt(s[k].0, s[s.len() - 1].0));
            }
        }
    }
}

fn copy_bytes(b: &[u8]) -> (r: Vec<u8>)
    ensures
        r@ == b@,
{
    vstd::slice::slice_to_vec(b)
}

fn copy_entry(e: &KvEntry) -> (r: KvEntry)
    ensures
        entry_view(r) == entry_view(*e),
{
    KvEntry { key: copy_bytes(e.key.as_slice()), value: copy_bytes(e.value.as_slice()) }
}

/// An ordered byte-keyed store held in memory.
pub struct MemKv {
    entries: Vec<KvEntry>,
}

impl MemKv {
    /// The entries, in key order.
    pub closed spec fn view(&self) -> Seq<(Seq<u8>, Seq<u8>)> {
        entries_view(self.entries@)
    }

    pub open spec fn wf(&self) -> bool {
        sorted_keys(self.view())
    }

    pub fn new() -> (r: MemKv)
        ensures
            r.wf(),
            r.view() == Seq::<(Seq<u8>, Seq<u8>)>::empty(),
    {
        let r = MemKv { entries: Vec::new() };
        assert(r.view() =~= Seq::<(Seq<u8>, Seq<u8>)>::empty());
        r
    }

    pub fn len(&self) -> (r: usize)
        ensures
            r == self.view().len(),
    {
        self.entries.len()
    }

    /// The value of `key`.
    pub fn get(&self, key: &[u8]) -> (r: Option<Vec<u8>>)
        requires
            self.wf(),
        ensures
            r is None ==> lookup(self.view(), key@) is None,
            r matches Some(v) ==> lookup(self.view(), key@) == Some(v@),
    {
        let mut i: usize = 0;
        while i < self.entries.len()
            invariant
                i <= self.entries@.len(),
                forall|j: int| 0 <= j < i ==> (#[trigger] self.view()[j]).0 != key@,
                sorted_keys(self.view()),
            decreases self.entries@.len() - i,
        {
            assert(self.view()[i as int] == entry_view(self.entries@[i as int]));
            if compare_bytes(self.entries[i].key.as_slice(), key) == 0 {
                proof {
                    lemma_lookup_at(self.view(), i as int);
                }
                return Some(copy_bytes(self.entries[i].value.as_slice()));
            }
            i = i + 1;
        }
        None
    }

    /// Stores `value` under `key`, in key order; an existing value is replaced.
    pub fn insert(&mut self, key: &[u8], value: &[u8]) -> (r: Result<(), PersistenceError>)
        requires
            old(self).wf(),
        ensures
            final(self).wf(),
            r is Ok,
            (exists|i: int|
                0 <= i < old(self).view().len() && old(self).view()[i].0 == key@ && final(self).view()
                    == old(self).view().update(i, (key@, value@))) || (exists|p: int|
                0 <= p <= old(self).view().len() && (forall|i: int|
                    0 <= i < old(self).view().len() ==> (#[trigger] old(self).view()[i]).0 != key@)
                    && final(self).view() == old(self).view().insert(p, (key@, value@))),
    {
        let ghost s = self.view();
        let mut i: usize = 0;
        let mut c: i8 = -1;
        while i < self.entries.len() && c < 0
            invariant
                i <= self.entries@.len(),
                self.entries@ == old(self).entries@,
                s == self.view(),
                sorted_keys(s),
                forall|j: int| 0 <= j < i ==> lex_lt(#[trigger] s[j].0, key@),
                c >= 0 ==> i < s.len() && (c == 0 <==> s[i as int].0 == key@) && (c > 0
                    <==> lex_lt(key@, s[i as int].0)),
            decreases 2 * (self.entries@.len() - i) + (if c < 0 {
                1int
            } else {
                0int
            }),
        {
            assert(s[i as int] == entry_view(self.entries@[i as int]));
            c = compare_bytes(self.entries[i].key.as_slice(), key);
            if c < 0 {
                i = i + 1;
            }
        }
        let e = KvEntry { key: copy_bytes(key), value: copy_bytes(value) };
        if c == 0 {
            assert(s[i as int] == entry_view(self.entries@[i as int]));
            self.entries.set(i, e);
            assert(self.view() =~= s.update(i as int, (key@, value@)));
            assert forall|a: int, b: int| 0 <= a < b < self.view().len() implies lex_lt(
                #[trigger] self.view()[a].0,
                #[trigger] self.view()[b].0,
            ) by {
                assert(lex_lt(s[a].0, s[b].0));
            }
        } else {
            proof {
                if i < s.len() {
                    assert(c > 0);
                    assert(lex_lt(key@, s[i as int].0));
                }
                assert forall|j: int| i <= j < s.len() implies lex_lt(key@, #[trigger] s[j].0) by {
                    if j > i {
                        lemma_lex_transitive(key@, s[i as int].0, s[j].0);
                    }
                }
                assert forall|j: int| 0 <= j < s.len() implies (#[trigger] s[j]).0 != key@ by {
                    if j < i {
                        lemma_lex_asymmetric(s[j].0, key@);
                    } else {
                        lemma_lex_asymmetric(key@, s[j].0);
                    }
                }
            }
            self.entries.insert(i, e);
            assert(self.view() =~= s.insert(i as int, (key@, value@)));
            assert forall|a: int, b: int| 0 <= a < b < self.view().len() implies lex_lt(
                #[trigger] self.view()[a].0,
                #[trigger] self.view()[b].0,
            ) by {
                if b < i {
                    assert(lex_lt(s[a].0, s[b].0));
                } else if b == i {
                } else if a < i {
                    lemma_lex_transitive(s[a].0, key@, s[b - 1].0);
                } else if a == i {
                } else {
                    assert(lex_lt(s[a - 1].0, s[b - 1].0));
                }
            }
        }
        Ok(())
    }

    /// Removes the entries whose keys satisfy `lo <= key < hi`.
    fn retain_outside(&mut self, lo: Option<&[u8]>, hi: &[u8])
        requires
            old(self).wf(),
        ensures
            final(self).wf(),
            final(self).view() == old(self).view().filter(
                |e: (Seq<u8>, Seq<u8>)| !in_range(e.0, opt_view(lo), hi@),
            ),
    {
        let ghost s = self.view();
        let ghost p = |e: (Seq<u8>, Seq<u8>)| !in_range(e.0, opt_view(lo), hi@);
        let mut kept: Vec<KvEntry> = Vec::new();
        let mut i: usize = 0;
        while i < self.entries.len()
            invariant
                i <= self.entries@.len(),
                s == self.view(),
                entries_view(kept@) == s.subrange(0, i as int).filter(p),
                p == (|e: (Seq<u8>, Seq<u8>)| !in_range(e.0, opt_view(lo), hi@)),
            decreases self.entries@.len() - i,
        {
            assert(s[i as int] == entry_view(self.entries@[i as int]));
            let inside = key_in_range(self.entries[i].key.as_slice(), lo, hi);
            proof {
                assert(s.subrange(0, i + 1).drop_last() =~= s.subrange(0, i as int));
                reveal(Seq::filter);
            }
            if !inside {
                let ghost k0 = kept@;
                kept.push(copy_entry(&self.entries[i]));
                assert(entries_view(kept@) =~= entries_view(k0).push(s[i as int]));
            }
            i = i + 1;
        }
        assert(s.subrange(0, s.len() as int) =~= s);
        self.entries = kept;
        proof {
            lemma_filter_sorted(s, p);
        }
    }

    pub fn remove(&mut self, key: &[u8]) -> (r: Result<(), PersistenceError>)
        requires
            old(self).wf(),
        ensures
            final(self).wf(),
            r is Ok,
            final(self).view() == old(self).view().filter(
                |e: (Seq<u8>, Seq<u8>)| e.0 != key@,
            ),
    {
        let mut hi = copy_bytes(key);
        hi.push(0u8);
        proof {
            assert(lex_witness(key@, hi@, key@.len() as int));
            assert forall|k: Seq<u8>| #![auto] in_range(k, Some(key@), hi@) <==> k == key@ by {
                if in_range(k, Some(key@), hi@) && k != key@ {
                    let w = choose|w: int| lex_witness(key@, k, w);
                    let v = choose|v: int| lex_witness(k, hi@, v);
                    assert(w == key@.len()) by {
                        if w < key@.len() {
                            assert(key@[w] == hi@[w]);
                            if v <= w {
                                if v == k.len() {
                                } else {
                                    assert(k[v] == key@[v]);
                                }
                            } else {
                                assert(k[w] == hi@[w]);
                            }
                        }
                    }
                    if v < k.len() {
                        if v < key@.len() {
                            assert(k[v] == key@[v]);
                            assert(hi@[v] == key@[v]);
                        } else {
                            assert(hi@[v] == 0);
                        }
                    }
                }
            }
        }
        let ghost s = self.view();
        self.retain_outside(Some(key), hi.as_slice());
        assert(self.view() =~= s.filter(|e: (Seq<u8>, Seq<u8>)| e.0 != key@)) by {
            let p1 = |e: (Seq<u8>, Seq<u8>)| !in_range(e.0, opt_view(Some(key)), hi@);
            let p2 = |e: (Seq<u8>, Seq<u8>)| e.0 != key@;
            assert(p1 =~= p2);
        }
        Ok(())
    }

    /// Removes all keys in `[from, to)`.
    pub fn remove_range(&mut self, from: &[u8], to: &[u8]) -> (r: Result<(), PersistenceError>)
        requires
            old(self).wf(),
        ensures
            final(self).wf(),
            r is Ok,
            final(self).view() == old(self).view().filter(
                |e: (Seq<u8>, Seq<u8>)| !in_range(e.0, Some(from@), to@),
            ),
    {
        self.retain_outside(Some(from), to);
        Ok(())
    }

    /// The entries whose keys lie in `[lo, hi)`, in key order.
    pub fn range(&self, lo: Option<&[u8]>, hi: &[u8]) -> (r: Result<Vec<KvEntry>, PersistenceError>)
        requires
            self.wf(),
        ensures
            r matches Ok(v) && entries_view(v@) == self.view().filter(
                |e: (Seq<u8>, Seq<u8>)| in_range(e.0, opt_view(lo), hi@),
            ),
    {
        let ghost s = self.view();
        let ghost p = |e: (Seq<u8>, Seq<u8>)| in_range(e.0, opt_view(lo), hi@);
        let mut out: Vec<KvEntry> = Vec::new();
        let mut i: usize = 0;
        while i < self.entries.len()
            invariant
                i <= self.entries@.len(),
                s == self.view(),
                entries_view(out@) == s.subrange(0, i as int).filter(p),
                p == (|e: (Seq<u8>, Seq<u8>)| in_range(e.0, opt_view(lo), hi@)),
            decreases self.entries@.len() - i,
        {
            assert(s[i as int] == entry_view(self.entries@[i as int]));
            let inside = key_in_range(self.entries[i].key.as_slice(), lo, hi);
            proof {
                assert(s.subrange(0, i + 1).drop_last() =~= s.subrange(0, i as int));
                reveal(Seq::filter);
            }
            if inside {
                let ghost o0 = out@;
                out.push(copy_entry(&self.entries[i]));
                assert(entries_view(out@) =~= entries_view(o0).push(s[i as int]));
            }
            i = i + 1;
        }
        assert(s.subrange(0, s.len() as int) =~= s);
        Ok(out)
    }

    /// The entry with the largest key strictly below `key`.
    pub fn next_back_entry(&self, key: &[u8]) -> (r: Result<Option<KvEntry>, PersistenceError>)
        requires
            self.wf(),
        ensures
            r is Ok,
            r matches Ok(None) ==> forall|i: int|
                0 <= i < self.view().len() ==> !lex_lt(#[trigger] self.view()[i].0, key@),
            r matches Ok(Some(e)) ==> exists|i: int|
                0 <= i < self.view().len() && #[trigger] self.view()[i] == entry_view(e) && lex_lt(
                    e.key@,
                    key@,
                ) && (i + 1 == self.view().len() || !lex_lt(self.view()[i + 1].0, key@)),
    {
        let ghost s = self.view();
        let mut i: usize = 0;
        while i < self.entries.len() && compare_bytes(self.entries[i].key.as_slice(), key) < 0
            invariant
                i <= self.entries@.len(),
                s == self.view(),
                forall|j: int| 0 <= j < i ==> lex_lt(#[trigger] s[j].0, key@),
            decreases self.entries@.len() - i,
        {
            assert(s[i as int] == entry_view(self.entries@[i as int]));
            i = i + 1;
        }
        if i < self.entries.len() {
            assert(s[i as int] == entry_view(self.entries@[i as int]));
            assert(!lex_lt(s[i as int].0, key@));
        }
        if i == 0 {
            proof {
                assert forall|j: int| 0 <= j < s.len() implies !lex_lt(#[trigger] s[j].0, key@) by {
                    if j > 0 && lex_lt(s[j].0, key@) {
                        lemma_lex_transitive(s[0].0, s[j].0, key@);
                    }
                }
            }
            Ok(None)
        } else {
            assert(s[i - 1] == entry_view(self.entries@[i - 1]));
            let e = copy_entry(&self.entries[i - 1]);
            proof {
                let w = i - 1;
                assert(lex_lt(s[w].0, key@));
                assert(entry_view(e) == s[w]);
                assert(w + 1 == s.len() || !lex_lt(s[w + 1].0, key@));
                assert(self.view()[w] == entry_view(e));
            }
            Ok(Some(e))
        }
    }
}

pub open spec fn opt_view(o: Option<&[u8]>) -> Option<Seq<u8>> {
    match o {
        Some(s) => Some(s@),
        None => None,
    }
}

fn key_in_range(k: &[u8], lo: Option<&[u8]>, hi: &[u8]) -> (r: bool)
    ensures
        r == in_range(k@, opt_view(lo), hi@),
{
    let above = match lo {
        Some(l) => compare_bytes(l, k) <= 0,
        None => true,
    };
    above && compare_bytes(k, hi) < 0
}

/// An ordered byte-keyed store.
pub trait KVStore {
    /// The store's own consistency condition.
    spec fn store_wf(&self) -> bool;

    /// Get a value by key.
    fn get(&self, key: &[u8]) -> Result<Option<Vec<u8>>, PersistenceError>
        requires
            self.store_wf(),
    ;

    fn insert(&mut self, key: &[u8], value: &[u8]) -> (r: Result<(), PersistenceError>)
        requires
            old(self).store_wf(),
        ensures
            final(self).store_wf(),
    ;

    /// Remove a key.
    fn remove(&mut self, key: &[u8]) -> (r: Result<(), PersistenceError>)
        requires
            old(self).store_wf(),
        ensures
            final(self).store_wf(),
    ;

    /// Remove all keys in the range `[from, to)`.
    fn remove_range(&mut self, from: &[u8], to: &[u8]) -> (r: Result<(), PersistenceError>)
        requires
            old(self).store_wf(),
        ensures
            final(self).store_wf(),
    ;

    /// The entries in `[lo, hi)`, in key order; no `lo` means from the first key.
    fn range(&self, lo: Option<&[u8]>, hi: &[u8]) -> Result<Vec<KvEntry>, PersistenceError>
        requires
            self.store_wf(),
    ;

    /// The entry with the largest key strictly below `key`.
    fn next_back_entry(&self, key: &[u8]) -> Result<Option<KvEntry>, PersistenceError>
        requires
            self.store_wf(),
    ;
}

impl KVStore for MemKv {
    open spec fn store_wf(&self) -> bool {
        self.wf()
    }

    fn get(&self, key: &[u8]) -> Result<Option<Vec<u8>>, PersistenceError> {
        Ok(MemKv::get(self, key))
    }

    fn insert(&mut self, key: &[u8], value: &[u8]) -> Result<(), PersistenceError> {
        MemKv::insert(self, key, value)
    }

    fn remove(&mut self, key: &[u8]) -> Result<(), PersistenceError> {
        MemKv::remove(self, key)
    }

    fn remove_range(&mut self, from: &[u8], to: &[u8]) -> Result<(), PersistenceError> {
        MemKv::remove_range(self, from, to)
    }

    fn range(&self, lo: Option<&[u8]>, hi: &[u8]) -> Result<Vec<KvEntry>, PersistenceError> {
        MemKv::range(self, lo, hi)
    }

    fn next_back_entry(&self, key: &[u8]) -> Result<Option<KvEntry>, PersistenceError> {
        MemKv::next_back_entry(self, key)
    }
}

/// A range query that can be run once.
pub trait KVRange {
    fn kv_range(self) -> Result<Vec<KvEntry>, PersistenceError>;
}

/// A range query over a `MemKv`.
pub struct MemKvRange<'a> {
    pub store: &'a MemKv,
    pub lo: Option<Vec<u8>>,
    pub hi: Vec<u8>,
}

impl<'a> KVRange for MemKvRange<'a> {
    fn kv_range(self) -> Result<Vec<KvEntry>, PersistenceError> {
        if self.store.wf_check() {
            match &self.lo {
                Some(l) => self.store.range(Some(l.as_slice()), self.hi.as_slice()),
                None => self.store.range(None, self.hi.as_slice()),
            }
        } else {
            Err(PersistenceError::Backend(String::from_str("unordered store")))
        }
    }
}

impl MemKv {
    /// Whether the keys are in strictly increasing order.
    pub fn wf_check(&self) -> (r: bool)
        ensures
            r == self.wf(),
    {
        let n = self.entries.len();
        if n < 2 {
            return true;
        }
        let mut i: usize = 1;
        while i < n
            invariant
                1 <= i <= n,
                n == self.view().len(),
                forall|a: int, b: int| 0 <= a < b < i ==> lex_lt(#[trigger] self.view()[a].0, #[trigger] self.view()[b].0),
            decreases n - i,
        {
            assert(self.view()[i - 1] == entry_view(self.entries@[i - 1]));
            assert(self.view()[i as int] == entry_view(self.entries@[i as int]));
            if compare_bytes(self.entries[i - 1].key.as_slice(), self.entries[i].key.as_slice()) >= 0 {
                assert(!lex_lt(self.view()[i - 1].0, self.view()[i as int].0));
                return false;
            }
            proof {
                assert forall|a: int, b: int| 0 <= a < b < i + 1 implies lex_lt(#[trigger] self.view()[a].0, #[trigger] self.view()[b].0) by {
                    if b == i && a < i - 1 {
                        lemma_lex_transitive(self.view()[a].0, self.view()[i - 1].0, self.view()[b].0);
                    }
                }
            }
            i = i + 1;
        }
        true
    }
}

impl MemKv {
    /// The entry at position `i` in key order.
    pub fn entry_at(&self, i: usize) -> (r: &KvEntry)
        requires
            i < self.view().len(),
        ensures
            entry_view(*r) == self.view()[i as int],
    {
        &self.entries[i]
    }
}

impl MemKv {
    /// Keeps the entries whose keys `keep` accepts; `keep` decides as `p` says.
    pub fn retain_keys<F: Fn(&[u8]) -> bool>(&mut self, keep: F, Ghost(p): Ghost<spec_fn(Seq<u8>) -> bool>)
        requires
            old(self).wf(),
            forall|k: &[u8]| #[trigger] keep.requires((k,)),
            forall|k: &[u8], b: bool| keep.ensures((k,), b) ==> b == p(k@),
        ensures
            final(self).wf(),
            final(self).view() == old(self).view().filter(|e: (Seq<u8>, Seq<u8>)| p(e.0)),
    {
        let ghost s = self.view();
        let ghost q = |e: (Seq<u8>, Seq<u8>)| p(e.0);
        let mut kept: Vec<KvEntry> = Vec::new();
        let mut i: usize = 0;
        while i < self.entries.len()
            invariant
                i <= self.entries@.len(),
                s == self.view(),
                q == (|e: (Seq<u8>, Seq<u8>)| p(e.0)),
                forall|k: &[u8]| #[trigger] keep.requires((k,)),
                forall|k: &[u8], b: bool| keep.ensures((k,), b) ==> b == p(k@),
                entries_view(kept@) == s.subrange(0, i as int).filter(q),
            decreases self.entries@.len() - i,
        {
            assert(s[i as int] == entry_view(self.entries@[i as int]));
            let yes = keep(self.entries[i].key.as_slice());
            proof {
                assert(s.subrange(0, i + 1).drop_last() =~= s.subrange(0, i as int));
                reveal(Seq::filter);
            }
            if yes {
                let ghost k0 = kept@;
                kept.push(copy_entry(&self.entries[i]));
                assert(entries_view(kept@) =~= entries_view(k0).push(s[i as int]));
            }
            i = i + 1;
        }
        assert(s.subrange(0, s.len() as int) =~= s);
        self.entries = kept;
        proof {
            lemma_filter_sorted(s, q);
        }
    }
}

} // verus!
