use vstd::prelude::*;

use crate::kv::{lex_lt, lex_witness};

verus! {

/// Kind byte of an update record.
pub const UPDATE_KIND: u8 = 0;

/// Kind byte of a snapshot record.
pub const SNAPSHOT_KIND: u8 = 1;

/// The clock type of the update log.
pub type Clock = u64;

/// Big-endian bytes of `x`.
pub open spec fn be_u64(x: u64) -> Seq<u8> {
    seq![
        (x >> 56u64) as u8,
        (x >> 48u64) as u8,
        (x >> 40u64) as u8,
        (x >> 32u64) as u8,
        (x >> 24u64) as u8,
        (x >> 16u64) as u8,
        (x >> 8u64) as u8,
        x as u8,
    ]
}

/// The number that eight big-endian bytes stand for.
pub open spec fn from_be(b: Seq<u8>) -> u64 {
    ((b[0] as u64) << 56u64) | ((b[1] as u64) << 48u64) | ((b[2] as u64) << 40u64) | ((
    b[3] as u64) << 32u64) | ((b[4] as u64) << 24u64) | ((b[5] as u64) << 16u64) | ((b[6] as u64)
        << 8u64) | (b[7] as u64)
}

pub proof fn lemma_from_be_of_be(x: u64)
    ensures
        from_be(be_u64(x)) == x,
{
    let b = be_u64(x);
    assert(b[0] == (x >> 56u64) as u8);
    assert(b[7] == x as u8);
    assert(((((x >> 56u64) as u8) as u64) << 56u64) | ((((x >> 48u64) as u8) as u64) << 48u64)
        | ((((x >> 40u64) as u8) as u64) << 40u64) | ((((x >> 32u64) as u8) as u64) << 32u64) | ((((
    x >> 24u64) as u8) as u64) << 24u64) | ((((x >> 16u64) as u8) as u64) << 16u64) | ((((x
        >> 8u64) as u8) as u64) << 8u64) | ((x as u8) as u64) == x) by (bit_vector);
}

/// Key prefix of the records of one kind of one object:
/// tenant (8 bytes, big-endian), object id length (8 bytes, big-endian),
/// object id bytes, kind byte.
pub open spec fn record_prefix(tenant: i64, object: Seq<u8>, kind: u8) -> Seq<u8> {
    be_u64(tenant as u64) + be_u64(object.len() as u64) + object + seq![kind]
}

/// Key of the record with clock `clock`.
pub open spec fn record_key(tenant: i64, object: Seq<u8>, kind: u8, clock: u64) -> Seq<u8> {
    record_prefix(tenant, object, kind) + be_u64(clock)
}

/// `key` is the key of a record of that kind of that object.
pub open spec fn is_record(key: Seq<u8>, tenant: i64, object: Seq<u8>, kind: u8) -> bool {
    let p = record_prefix(tenant, object, kind);
    key.len() == p.len() + 8 && key.subrange(0, p.len() as int) == p
}

/// The clock in the last eight bytes of a record key.
pub open spec fn clock_of(key: Seq<u8>) -> u64 {
    from_be(key.subrange(key.len() - 8, key.len() as int))
}

pub proof fn lemma_record_key(tenant: i64, object: Seq<u8>, kind: u8, clock: u64)
    ensures
        is_record(record_key(tenant, object, kind, clock), tenant, object, kind),
        clock_of(record_key(tenant, object, kind, clock)) == clock,
{
    let p = record_prefix(tenant, object, kind);
    let k = record_key(tenant, object, kind, clock);
    assert(k.subrange(0, p.len() as int) =~= p);
    assert(k.subrange(k.len() - 8, k.len() as int) =~= be_u64(clock));
    lemma_from_be_of_be(clock);
}

fn push_be_u64(v: &mut Vec<u8>, x: u64)
    ensures
        final(v)@ == old(v)@ + be_u64(x),
{
    v.push((x >> 56u64) as u8);
    v.push((x >> 48u64) as u8);
    v.push((x >> 40u64) as u8);
    v.push((x >> 32u64) as u8);
    v.push((x >> 24u64) as u8);
    v.push((x >> 16u64) as u8);
    v.push((x >> 8u64) as u8);
    v.push(x as u8);
    assert(final(v)@ =~= old(v)@ + be_u64(x));
}

/// Key prefix of the records of one kind of one object.
pub fn make_record_prefix(tenant: i64, object: &[u8], kind: u8) -> (r: Vec<u8>)
    ensures
        r@ == record_prefix(tenant, object@, kind),
{
    let mut v: Vec<u8> = Vec::new();
    push_be_u64(&mut v, tenant as u64);
    push_be_u64(&mut v, object.len() as u64);
    let mut i: usize = 0;
    let ghost start = v@;
    while i < object.len()
        invariant
            i <= object@.len(),
            v@ == start + object@.subrange(0, i as int),
        decreases object@.len() - i,
    {
        v.push(object[i]);
        assert(object@.subrange(0, i + 1) =~= object@.subrange(0, i as int).push(object@[i as int]));
        i = i + 1;
    }
    assert(object@.subrange(0, object@.len() as int) =~= object@);
    v.push(kind);
    assert(v@ =~= record_prefix(tenant, object@, kind));
    v
}

/// Key of a record of an object.
pub fn make_record_key(tenant: i64, object: &[u8], kind: u8, clock: Clock) -> (r: Vec<u8>)
    ensures
        r@ == record_key(tenant, object@, kind, clock),
{
    let mut v = make_record_prefix(tenant, object, kind);
    push_be_u64(&mut v, clock);
    v
}

/// Key of an update record of an object.
pub fn make_doc_update_key(tenant: i64, object: &[u8], clock: Clock) -> (r: Vec<u8>)
    ensures
        r@ == record_key(tenant, object@, UPDATE_KIND, clock),
{
    make_record_key(tenant, object, UPDATE_KIND, clock)
}

/// Whether `key` is a record key of that kind of that object.
pub fn key_is_record(key: &[u8], prefix: &[u8]) -> (r: bool)
    ensures
        r == (key@.len() == prefix@.len() + 8 && key@.subrange(0, prefix@.len() as int)
            == prefix@),
{
    if key.len() < 8 || key.len() - 8 != prefix.len() {
        return false;
    }
    let mut i: usize = 0;
    while i < prefix.len()
        invariant
            i <= prefix@.len(),
            key@.len() == prefix@.len() + 8,
            forall|j: int| 0 <= j < i ==> key@[j] == prefix@[j],
        decreases prefix@.len() - i,
    {
        if key[i] != prefix[i] {
            assert(key@.subrange(0, prefix@.len() as int)[i as int] != prefix@[i as int]);
            return false;
        }
        i = i + 1;
    }
    assert(key@.subrange(0, prefix@.len() as int) =~= prefix@);
    true
}

/// The clock in the last eight bytes of a key of at least eight bytes.
pub fn clock_from_key(key: &[u8]) -> (r: Clock)
    requires
        key@.len() >= 8,
    ensures
        r == clock_of(key@),
{
    let n = key.len();
    let ghost b = key@.subrange(n - 8, n as int);
    assert(b[0] == key@[n - 8]);
    ((key[n - 8] as u64) << 56u64) | ((key[n - 7] as u64) << 48u64) | ((key[n - 6] as u64)
        << 40u64) | ((key[n - 5] as u64) << 32u64) | ((key[n - 4] as u64) << 24u64) | ((key[n
        - 3] as u64) << 16u64) | ((key[n - 2] as u64) << 8u64) | (key[n - 1] as u64)
}

/// Eight bytes read as a number and written back are the same bytes.
pub proof fn lemma_be_of_from_be(b: Seq<u8>)
    requires
        b.len() == 8,
    ensures
        be_u64(from_be(b)) == b,
{
    let (b0, b1, b2, b3, b4, b5, b6, b7) = (b[0], b[1], b[2], b[3], b[4], b[5], b[6], b[7]);
    let x = from_be(b);
    assert(x == ((b0 as u64) << 56u64) | ((b1 as u64) << 48u64) | ((b2 as u64) << 40u64) | ((
    b3 as u64) << 32u64) | ((b4 as u64) << 24u64) | ((b5 as u64) << 16u64) | ((b6 as u64)
        << 8u64) | (b7 as u64));
    assert((x >> 56u64) as u8 == b0 && (x >> 48u64) as u8 == b1 && (x >> 40u64) as u8 == b2 && (x
        >> 32u64) as u8 == b3 && (x >> 24u64) as u8 == b4 && (x >> 16u64) as u8 == b5 && (x
        >> 8u64) as u8 == b6 && x as u8 == b7) by (bit_vector)
        requires
            x == ((b0 as u64) << 56u64) | ((b1 as u64) << 48u64) | ((b2 as u64) << 40u64) | ((
            b3 as u64) << 32u64) | ((b4 as u64) << 24u64) | ((b5 as u64) << 16u64) | ((
            b6 as u64) << 8u64) | (b7 as u64),
    ;
    assert(be_u64(x) =~= b);
}

/// Big-endian bytes sort as the numbers do.
pub proof fn lemma_be_order(a: u64, b: u64)
    requires
        a < b,
    ensures
        lex_lt(be_u64(a), be_u64(b)),
{
    let x = be_u64(a);
    let y = be_u64(b);
    assert(((a >> 56u64) as u8) < ((b >> 56u64) as u8) || (((a >> 56u64) as u8) == ((b
        >> 56u64) as u8) && ((a >> 48u64) as u8) < ((b >> 48u64) as u8)) || (((a >> 56u64) as u8)
        == ((b >> 56u64) as u8) && ((a >> 48u64) as u8) == ((b >> 48u64) as u8) && ((a
        >> 40u64) as u8) < ((b >> 40u64) as u8)) || (((a >> 56u64) as u8) == ((b >> 56u64) as u8)
        && ((a >> 48u64) as u8) == ((b >> 48u64) as u8) && ((a >> 40u64) as u8) == ((b
        >> 40u64) as u8) && ((a >> 32u64) as u8) < ((b >> 32u64) as u8)) || (((a >> 56u64) as u8)
        == ((b >> 56u64) as u8) && ((a >> 48u64) as u8) == ((b >> 48u64) as u8) && ((a
        >> 40u64) as u8) == ((b >> 40u64) as u8) && ((a >> 32u64) as u8) == ((b >> 32u64) as u8)
        && ((a >> 24u64) as u8) < ((b >> 24u64) as u8)) || (((a >> 56u64) as u8) == ((b
        >> 56u64) as u8) && ((a >> 48u64) as u8) == ((b >> 48u64) as u8) && ((a >> 40u64) as u8)
        == ((b >> 40u64) as u8) && ((a >> 32u64) as u8) == ((b >> 32u64) as u8) && ((a
        >> 24u64) as u8) == ((b >> 24u64) as u8) && ((a >> 16u64) as u8) < ((b >> 16u64) as u8))
        || (((a >> 56u64) as u8) == ((b >> 56u64) as u8) && ((a >> 48u64) as u8) == ((b
        >> 48u64) as u8) && ((a >> 40u64) as u8) == ((b >> 40u64) as u8) && ((a >> 32u64) as u8)
        == ((b >> 32u64) as u8) && ((a >> 24u64) as u8) == ((b >> 24u64) as u8) && ((a
        >> 16u64) as u8) == ((b >> 16u64) as u8) && ((a >> 8u64) as u8) < ((b >> 8u64) as u8))
        || (((a >> 56u64) as u8) == ((b >> 56u64) as u8) && ((a >> 48u64) as u8) == ((b
        >> 48u64) as u8) && ((a >> 40u64) as u8) == ((b >> 40u64) as u8) && ((a >> 32u64) as u8)
        == ((b >> 32u64) as u8) && ((a >> 24u64) as u8) == ((b >> 24u64) as u8) && ((a
        >> 16u64) as u8) == ((b >> 16u64) as u8) && ((a >> 8u64) as u8) == ((b >> 8u64) as u8)
        && (a as u8) < (b as u8))) by (bit_vector)
        requires
            a < b,
    ;
    if x[0] < y[0] {
        assert(lex_witness(x, y, 0));
    } else if x[1] < y[1] {
        assert(lex_witness(x, y, 1));
    } else if x[2] < y[2] {
        assert(lex_witness(x, y, 2));
    } else if x[3] < y[3] {
        assert(lex_witness(x, y, 3));
    } else if x[4] < y[4] {
        assert(lex_witness(x, y, 4));
    } else if x[5] < y[5] {
        assert(lex_witness(x, y, 5));
    } else if x[6] < y[6] {
        assert(lex_witness(x, y, 6));
    } else {
        assert(lex_witness(x, y, 7));
    }
}

/// Record keys of one object and kind sort by clock.
pub proof fn lemma_record_key_order(tenant: i64, object: Seq<u8>, kind: u8, a: u64, b: u64)
    requires
        a < b,
    ensures
        lex_lt(record_key(tenant, object, kind, a), record_key(tenant, object, kind, b)),
{
    lemma_be_order(a, b);
    let p = record_prefix(tenant, object, kind);
    let x = be_u64(a);
    let y = be_u64(b);
    let k = choose|k: int| lex_witness(x, y, k);
    let ka = record_key(tenant, object, kind, a);
    let kb = record_key(tenant, object, kind, b);
    assert forall|j: int| 0 <= j < p.len() + k implies ka[j] == kb[j] by {
        if j >= p.len() {
            assert(x[j - p.len()] == y[j - p.len()]);
        }
    }
    assert(lex_witness(ka, kb, p.len() + k));
}

/// A record key is its prefix followed by the bytes of its clock.
pub proof fn lemma_record_key_of(key: Seq<u8>, tenant: i64, object: Seq<u8>, kind: u8)
    requires
        is_record(key, tenant, object, kind),
    ensures
        key == record_key(tenant, object, kind, clock_of(key)),
{
    let p = record_prefix(tenant, object, kind);
    let suffix = key.subrange(key.len() - 8, key.len() as int);
    lemma_be_of_from_be(suffix);
    assert(key =~= p + suffix);
}

} // verus!
