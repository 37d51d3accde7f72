//! What holds across the operations of the storage, stated over their
//! contracts.
use crate::key::{
    be_bytes, data_key_bytes, data_prefix_bytes, has_prefix, holds_byte, lemma_be_bytes_order,
    lemma_lex_asymmetric, lemma_lex_common_prefix, lemma_schema_not_data, lemma_tables_disjoint,
    lex_lt, schema_key_bytes, SEPARATOR,
};
use crate::backend::{entry_key, entry_value, scan_of};
use crate::storage::{issued, without_table, SledStorage, StoreError};
use vstd::prelude::*;

verus! {

/// The schema read back after storing one is the one stored.
pub proof fn law_schema_round_trip(
    before: SledStorage,
    after: SledStorage,
    t: Seq<u8>,
    schema: Seq<u8>,
)
    requires
        after.contents() == before.contents().insert(schema_key_bytes(t), schema),
    ensures
        after.contents().contains_key(schema_key_bytes(t)),
        after.contents()[schema_key_bytes(t)] == schema,
{
}

/// A scan of one table never delivers the row key of another, where neither
/// name holds the separator `/`.
pub proof fn law_scan_isolated(
    m: Map<Seq<u8>, Seq<u8>>,
    t1: Seq<u8>,
    t2: Seq<u8>,
    r: Seq<Result<(Vec<u8>, Vec<u8>), StoreError>>,
)
    requires
        t1 != t2,
        !holds_byte(t1, SEPARATOR),
        !holds_byte(t2, SEPARATOR),
        scan_of(m, data_prefix_bytes(t1), r),
    ensures
        forall|i: int, id: u64|
            0 <= i < r.len() && r[i] is Ok ==> #[trigger] entry_key(r[i]) != #[trigger] data_key_bytes(
                t2,
                id,
            ),
{
    assert forall|i: int, id: u64|
        0 <= i < r.len() && r[i] is Ok implies #[trigger] entry_key(r[i]) != #[trigger] data_key_bytes(
        t2,
        id,
    ) by {
        lemma_tables_disjoint(t1, t2, id);
    }
}

/// Row keys of one table order as their identifiers do.
pub proof fn law_keys_order_as_ids(t: Seq<u8>, a: u64, b: u64)
    ensures
        a < b <==> lex_lt(data_key_bytes(t, a), data_key_bytes(t, b)),
{
    let p = data_prefix_bytes(t);
    lemma_lex_common_prefix(p, be_bytes(a), be_bytes(b));
    lemma_lex_common_prefix(p, be_bytes(b), be_bytes(a));
    lemma_lex_asymmetric(data_key_bytes(t, a), data_key_bytes(t, b));
    if a < b {
        lemma_be_bytes_order(a, b);
    } else if b < a {
        lemma_be_bytes_order(b, a);
    }
}

/// Of two keys handed out one after the other, with any other mutations
/// between them, the later carries the larger identifier and sorts after the
/// earlier.
pub proof fn law_generated_ids_increase(
    s0: SledStorage,
    s1: SledStorage,
    s2: SledStorage,
    s3: SledStorage,
    t: Seq<u8>,
    k1: Seq<u8>,
    k2: Seq<u8>,
)
    requires
        issued(s0, s1, t, k1),
        s1.next_id() <= s2.next_id(),
        issued(s2, s3, t, k2),
    ensures
        forall|a: u64, b: u64|
            #[trigger] data_key_bytes(t, a) == k1 && #[trigger] data_key_bytes(t, b) == k2 ==> a < b,
        lex_lt(k1, k2),
{
    let a = choose|a: u64| #[trigger] data_key_bytes(t, a) == k1 && a >= s0.next_id() && s1.next_id() == a + 1;
    let b = choose|b: u64| #[trigger] data_key_bytes(t, b) == k2 && b >= s2.next_id() && s3.next_id() == b + 1;
    law_keys_order_as_ids(t, a, b);
    assert forall|x: u64, y: u64|
        #[trigger] data_key_bytes(t, x) == k1 && #[trigger] data_key_bytes(t, y) == k2 implies x < y by {
        lemma_be_injective(t, x, a);
        lemma_be_injective(t, y, b);
    }
}

/// Equal row keys of one table carry equal identifiers.
proof fn lemma_be_injective(t: Seq<u8>, x: u64, y: u64)
    requires
        data_key_bytes(t, x) == data_key_bytes(t, y),
    ensures
        x == y,
{
    if x != y {
        law_keys_order_as_ids(t, x, y);
        law_keys_order_as_ids(t, y, x);
        lemma_lex_asymmetric(data_key_bytes(t, x), data_key_bytes(t, x));
    }
}

/// A scan of a table delivers its rows in ascending identifier order.
pub proof fn law_scan_ascending_ids(
    m: Map<Seq<u8>, Seq<u8>>,
    t: Seq<u8>,
    r: Seq<Result<(Vec<u8>, Vec<u8>), StoreError>>,
    i: int,
    j: int,
    a: u64,
    b: u64,
)
    requires
        scan_of(m, data_prefix_bytes(t), r),
        0 <= i < j < r.len(),
        r[i] is Ok,
        r[j] is Ok,
        entry_key(r[i]) == data_key_bytes(t, a),
        entry_key(r[j]) == data_key_bytes(t, b),
    ensures
        a < b,
{
    law_keys_order_as_ids(t, a, b);
}

/// Keys in strictly ascending order.
pub open spec fn strictly_ascending(a: Seq<Seq<u8>>) -> bool {
    forall|i: int, j: int| 0 <= i < j < a.len() ==> lex_lt(#[trigger] a[i], #[trigger] a[j])
}

/// Two lists of keys, each in strictly ascending order, that hold the same
/// keys are the same list.
proof fn lemma_ascending_unique(a: Seq<Seq<u8>>, b: Seq<Seq<u8>>)
    requires
        strictly_ascending(a),
        strictly_ascending(b),
        forall|x: Seq<u8>| a.contains(x) <==> b.contains(x),
    ensures
        a == b,
    decreases a.len(),
{
    if a.len() == 0 {
        if b.len() > 0 {
            assert(b.contains(b[0]));
        }
        assert(a =~= b);
    } else {
        assert(a.contains(a[0]));
        let j = choose|j: int| 0 <= j < b.len() && b[j] == a[0];
        assert(b.contains(b[0]));
        let i = choose|i: int| 0 <= i < a.len() && a[i] == b[0];
        if a[0] != b[0] {
            assert(lex_lt(a[0], a[i]));
            assert(lex_lt(b[0], b[j]));
            lemma_lex_asymmetric(a[0], b[0]);
        }
        let a2 = a.drop_first();
        let b2 = b.drop_first();
        assert forall|x: Seq<u8>| a2.contains(x) implies b2.contains(x) by {
            let k = choose|k: int| 0 <= k < a2.len() && a2[k] == x;
            assert(a[k + 1] == x);
            lemma_lex_asymmetric(x, x);
            assert(a.contains(x));
            let l = choose|l: int| 0 <= l < b.len() && b[l] == x;
            assert(b2[l - 1] == x);
        }
        assert forall|x: Seq<u8>| b2.contains(x) implies a2.contains(x) by {
            let k = choose|k: int| 0 <= k < b2.len() && b2[k] == x;
            assert(b[k + 1] == x);
            lemma_lex_asymmetric(x, x);
            assert(b.contains(x));
            let l = choose|l: int| 0 <= l < a.len() && a[l] == x;
            assert(a2[l - 1] == x);
        }
        assert forall|p: int, q: int| 0 <= p < q < a2.len() implies lex_lt(#[trigger] a2[p], #[trigger] a2[q]) by {
            assert(a2[p] == a[p + 1] && a2[q] == a[q + 1]);
        }
        assert forall|p: int, q: int| 0 <= p < q < b2.len() implies lex_lt(#[trigger] b2[p], #[trigger] b2[q]) by {
            assert(b2[p] == b[p + 1] && b2[q] == b[q + 1]);
        }
        lemma_ascending_unique(a2, b2);
        assert forall|k: int| 0 <= k < a.len() implies a[k] == b[k] by {
            if k > 0 {
                assert(a[k] == a2[k - 1]);
                assert(b[k] == b2[k - 1]);
            }
        }
        assert(a =~= b);
    }
}

/// Where the rows of a table sit at keys `ks` in ascending order (as keys
/// handed out one after another are), with `rows` at them, and no other key
/// falls under its prefix, a scan that meets no failure lists exactly those
/// keys with those rows, in that order.
pub proof fn law_scan_lists_rows(
    m: Map<Seq<u8>, Seq<u8>>,
    t: Seq<u8>,
    ks: Seq<Seq<u8>>,
    rows: Seq<Seq<u8>>,
    r: Seq<Result<(Vec<u8>, Vec<u8>), StoreError>>,
)
    requires
        strictly_ascending(ks),
        ks.len() == rows.len(),
        forall|i: int| 0 <= i < ks.len() ==> m.contains_key(#[trigger] ks[i]) && m[ks[i]] == rows[i],
        forall|k: Seq<u8>| #[trigger] m.contains_key(k) && has_prefix(k, data_prefix_bytes(t)) ==> ks.contains(k),
        forall|i: int| 0 <= i < ks.len() ==> has_prefix(#[trigger] ks[i], data_prefix_bytes(t)),
        scan_of(m, data_prefix_bytes(t), r),
        forall|i: int| 0 <= i < r.len() ==> #[trigger] r[i] is Ok,
    ensures
        r.len() == ks.len(),
        forall|i: int|
            0 <= i < r.len() ==> #[trigger] entry_key(r[i]) == ks[i] && entry_value(r[i]) == rows[i],
{
    let rk = r.map_values(|e: Result<(Vec<u8>, Vec<u8>), StoreError>| entry_key(e));
    assert forall|p: int, q: int| 0 <= p < q < rk.len() implies lex_lt(#[trigger] rk[p], #[trigger] rk[q]) by {
        assert(r[p] is Ok && r[q] is Ok);
    }
    assert forall|x: Seq<u8>| rk.contains(x) <==> ks.contains(x) by {
        if rk.contains(x) {
            let i = choose|i: int| 0 <= i < rk.len() && rk[i] == x;
            assert(r[i] is Ok);
            assert(entry_key(r[i]) == x);
        }
        if ks.contains(x) {
            let i = choose|i: int| 0 <= i < ks.len() && ks[i] == x;
            assert(m.contains_key(ks[i]) && has_prefix(ks[i], data_prefix_bytes(t)));
            let j = choose|j: int| 0 <= j < r.len() && #[trigger] entry_key(r[j]) == x;
            assert(rk[j] == x);
        }
    }
    lemma_ascending_unique(rk, ks);
    assert forall|i: int| 0 <= i < r.len() implies #[trigger] entry_key(r[i]) == ks[i] && entry_value(r[i]) == rows[i] by {
        assert(rk[i] == ks[i]);
        assert(r[i] is Ok);
    }
}

/// Once a table is deleted, a scan of it delivers no row and it has no schema.
pub proof fn law_delete_cascades(
    m: Map<Seq<u8>, Seq<u8>>,
    t: Seq<u8>,
    r: Seq<Result<(Vec<u8>, Vec<u8>), StoreError>>,
)
    requires
        scan_of(without_table(m, t), data_prefix_bytes(t), r),
    ensures
        forall|i: int| 0 <= i < r.len() ==> r[i] is Err,
        !without_table(m, t).contains_key(schema_key_bytes(t)),
{
    assert forall|i: int| 0 <= i < r.len() implies r[i] is Err by {
        if r[i] is Ok {
            let k = entry_key(r[i]);
            assert(has_prefix(k, data_prefix_bytes(t)));
            assert(without_table(m, t).contains_key(k));
        }
    }
}

/// Removing a key that holds nothing changes nothing.
pub proof fn law_delete_absent_key(m: Map<Seq<u8>, Seq<u8>>, k: Seq<u8>)
    requires
        !m.contains_key(k),
    ensures
        m.remove(k) == m,
{
    assert(m.remove(k) =~= m);
}

/// Deleting a table that has neither rows nor a schema changes nothing.
pub proof fn law_delete_absent_table(m: Map<Seq<u8>, Seq<u8>>, t: Seq<u8>)
    requires
        !m.contains_key(schema_key_bytes(t)),
        forall|k: Seq<u8>| #[trigger] m.contains_key(k) ==> !has_prefix(k, data_prefix_bytes(t)),
    ensures
        without_table(m, t) == m,
{
    assert(without_table(m, t) =~= m);
}

} // verus!
