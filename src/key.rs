//! The key layout: `schema/<table>` for a table's schema and
//! `data/<table>/<id>` for its rows, with the identifier written as eight
//! big-endian bytes so that byte order and numeric order agree.
use vstd::prelude::*;
use vstd::string::StringSliceAdditionalSpecFns;

verus! {

/// The byte `/`, which ends each part of a key but the last.
pub const SEPARATOR: u8 = 47;

/// The bytes of `"data/"`.
pub open spec fn data_tag() -> Seq<u8> {
    seq![100u8, 97u8, 116u8, 97u8, 47u8]
}

/// The bytes of `"schema/"`.
pub open spec fn schema_tag() -> Seq<u8> {
    seq![115u8, 99u8, 104u8, 101u8, 109u8, 97u8, 47u8]
}

/// The eight bytes of `id`, most significant first.
pub open spec fn be_bytes(id: u64) -> Seq<u8> {
    seq![
        ((id >> 56u64) & 0xffu64) as u8,
        ((id >> 48u64) & 0xffu64) as u8,
        ((id >> 40u64) & 0xffu64) as u8,
        ((id >> 32u64) & 0xffu64) as u8,
        ((id >> 24u64) & 0xffu64) as u8,
        ((id >> 16u64) & 0xffu64) as u8,
        ((id >> 8u64) & 0xffu64) as u8,
        (id & 0xffu64) as u8,
    ]
}

/// `"data/" + t + "/"`: every row key of table `t` starts with it.
pub open spec fn data_prefix_bytes(t: Seq<u8>) -> Seq<u8> {
    data_tag() + t + seq![SEPARATOR]
}

/// `"data/" + t + "/" + be_bytes(id)`: the key of row `id` of table `t`.
pub open spec fn data_key_bytes(t: Seq<u8>, id: u64) -> Seq<u8> {
    data_prefix_bytes(t) + be_bytes(id)
}

/// `"schema/" + t`: the key of the schema of table `t`.
pub open spec fn schema_key_bytes(t: Seq<u8>) -> Seq<u8> {
    schema_tag() + t
}

/// Whether `p` is a prefix of `k`.
pub open spec fn has_prefix(k: Seq<u8>, p: Seq<u8>) -> bool {
    p.len() <= k.len() && k.subrange(0, p.len() as int) == p
}

/// Whether byte `b` occurs in `t`.
pub open spec fn holds_byte(t: Seq<u8>, b: u8) -> bool {
    exists|i: int| 0 <= i < t.len() && t[i] == b
}

/// Byte-wise lexicographic order, a proper prefix first: the order in which
/// the store keeps and scans its keys.
pub open spec fn lex_lt(a: Seq<u8>, b: Seq<u8>) -> bool
    decreases a.len(),
{
    if a.len() == 0 {
        b.len() > 0
    } else if b.len() == 0 {
        false
    } else if a[0] != b[0] {
        a[0] < b[0]
    } else {
        lex_lt(a.drop_first(), b.drop_first())
    }
}

/// Appends the bytes of `b` to `v`.
fn append_bytes(v: &mut Vec<u8>, b: &[u8])
    requires
        old(v)@.len() + b@.len() <= usize::MAX,
    ensures
        final(v)@ == old(v)@ + b@,
{
    let n = b.len();
    let mut i: usize = 0;
    while i < n
        invariant
            n == b@.len(),
            0 <= i <= n,
            v@ == old(v)@ + b@.subrange(0, i as int),
        decreases n - i,
    {
        v.push(b[i]);
        i = i + 1;
        assert(b@.subrange(0, i as int) == b@.subrange(0, i - 1) + seq![b@[i - 1]]);
    }
    assert(b@.subrange(0, n as int) == b@);
}

/// The row prefix `"data/" + table_name + "/"`.
pub fn data_prefix(table_name: &str) -> (r: Vec<u8>)
    requires
        table_name.spec_bytes().len() + 6 <= usize::MAX,
    ensures
        r@ == data_prefix_bytes(table_name.spec_bytes()),
{
    let mut r: Vec<u8> = vec![100u8, 97u8, 116u8, 97u8, 47u8];
    assert(r@ == data_tag());
    append_bytes(&mut r, table_name.as_bytes());
    r.push(SEPARATOR);
    r
}

/// The eight bytes of `id`, most significant first.
pub fn id_bytes(id: u64) -> (r: Vec<u8>)
    ensures
        r@ == be_bytes(id),
{
    let r: Vec<u8> = vec![
        ((id >> 56u64) & 0xffu64) as u8,
        ((id >> 48u64) & 0xffu64) as u8,
        ((id >> 40u64) & 0xffu64) as u8,
        ((id >> 32u64) & 0xffu64) as u8,
        ((id >> 24u64) & 0xffu64) as u8,
        ((id >> 16u64) & 0xffu64) as u8,
        ((id >> 8u64) & 0xffu64) as u8,
        (id & 0xffu64) as u8,
    ];
    assert(r@ == be_bytes(id));
    r
}

/// The key of row `id` of table `table_name`.
pub fn data_key(table_name: &str, id: u64) -> (r: Vec<u8>)
    requires
        table_name.spec_bytes().len() + 14 <= usize::MAX,
    ensures
        r@ == data_key_bytes(table_name.spec_bytes(), id),
{
    let mut r = data_prefix(table_name);
    let b = id_bytes(id);
    append_bytes(&mut r, b.as_slice());
    r
}

/// The key of the schema of table `table_name`.
pub fn schema_key(table_name: &str) -> (r: Vec<u8>)
    requires
        table_name.spec_bytes().len() + 7 <= usize::MAX,
    ensures
        r@ == schema_key_bytes(table_name.spec_bytes()),
{
    let mut r: Vec<u8> = vec![115u8, 99u8, 104u8, 101u8, 109u8, 97u8, 47u8];
    assert(r@ == schema_tag());
    append_bytes(&mut r, table_name.as_bytes());
    r
}

/// Reads the identifier in the last eight bytes of a row key.
pub fn key_id(key: &[u8]) -> (r: Option<u64>)
    ensures
        r is Some <==> key@.len() >= 8,
        r matches Some(id) ==> key@.subrange(key@.len() - 8, key@.len() as int) == be_bytes(id),
{
    let n = key.len();
    if n < 8 {
        return None;
    }
    let b0 = key[n - 8];
    let b1 = key[n - 7];
    let b2 = key[n - 6];
    let b3 = key[n - 5];
    let b4 = key[n - 4];
    let b5 = key[n - 3];
    let b6 = key[n - 2];
    let b7 = key[n - 1];
    let id: u64 = (b0 as u64) << 56u64 | (b1 as u64) << 48u64 | (b2 as u64) << 40u64 | (b3 as u64)
        << 32u64 | (b4 as u64) << 24u64 | (b5 as u64) << 16u64 | (b6 as u64) << 8u64 | b7 as u64;
    assert(((id >> 56u64) & 0xffu64) as u8 == b0 && ((id >> 48u64) & 0xffu64) as u8 == b1 && ((id
        >> 40u64) & 0xffu64) as u8 == b2 && ((id >> 32u64) & 0xffu64) as u8 == b3 && ((id >> 24u64)
        & 0xffu64) as u8 == b4 && ((id >> 16u64) & 0xffu64) as u8 == b5 && ((id >> 8u64) & 0xffu64)
        as u8 == b6 && (id & 0xffu64) as u8 == b7) by (bit_vector)
        requires
            id == (b0 as u64) << 56u64 | (b1 as u64) << 48u64 | (b2 as u64) << 40u64 | (b3 as u64)
                << 32u64 | (b4 as u64) << 24u64 | (b5 as u64) << 16u64 | (b6 as u64) << 8u64
                | b7 as u64,
    ;
    assert(key@.subrange(n - 8, n as int) == be_bytes(id));
    Some(id)
}

/// Two byte strings that share a prefix compare as what follows it does.
pub proof fn lemma_lex_common_prefix(p: Seq<u8>, x: Seq<u8>, y: Seq<u8>)
    ensures
        lex_lt(p + x, p + y) == lex_lt(x, y),
    decreases p.len(),
{
    if p.len() > 0 {
        assert((p + x).drop_first() == p.drop_first() + x);
        assert((p + y).drop_first() == p.drop_first() + y);
        lemma_lex_common_prefix(p.drop_first(), x, y);
    } else {
        assert(p + x == x);
        assert(p + y == y);
    }
}

/// The order on byte strings is strict: never both ways, never to itself.
pub proof fn lemma_lex_asymmetric(a: Seq<u8>, b: Seq<u8>)
    ensures
        !(lex_lt(a, b) && lex_lt(b, a)),
        !lex_lt(a, a),
    decreases a.len(),
{
    if a.len() > 0 && b.len() > 0 {
        lemma_lex_asymmetric(a.drop_first(), b.drop_first());
    }
    if a.len() > 0 {
        lemma_lex_asymmetric(a.drop_first(), a.drop_first());
    }
}

/// The order on byte strings is transitive.
pub proof fn lemma_lex_transitive(a: Seq<u8>, b: Seq<u8>, c: Seq<u8>)
    requires
        lex_lt(a, b),
        lex_lt(b, c),
    ensures
        lex_lt(a, c),
    decreases a.len(),
{
    if a.len() > 0 && b.len() > 0 && c.len() > 0 && a[0] == b[0] && b[0] == c[0] {
        lemma_lex_transitive(a.drop_first(), b.drop_first(), c.drop_first());
    }
}

/// Big-endian bytes order as the numbers they encode.
pub proof fn lemma_be_bytes_order(a: u64, b: u64)
    requires
        a < b,
    ensures
        lex_lt(be_bytes(a), be_bytes(b)),
{
    assert(((a >> 56u64) & 0xffu64) != ((b >> 56u64) & 0xffu64) ==> ((a >> 56u64) & 0xffu64) < ((b >> 56u64) & 0xffu64)) by (bit_vector)
        requires
            a < b,
    ;
    assert(((a >> 56u64) & 0xffu64) == ((b >> 56u64) & 0xffu64) && ((a >> 48u64) & 0xffu64) != ((b >> 48u64) & 0xffu64) ==> ((a >> 48u64) & 0xffu64) < ((b >> 48u64) & 0xffu64)) by (bit_vector)
        requires
            a < b,
    ;
    assert(((a >> 56u64) & 0xffu64) == ((b >> 56u64) & 0xffu64) && ((a >> 48u64) & 0xffu64) == ((b >> 48u64) & 0xffu64) && ((a >> 40u64) & 0xffu64) != ((b >> 40u64) & 0xffu64) ==> ((a >> 40u64) & 0xffu64) < ((b >> 40u64) & 0xffu64)) by (bit_vector)
        requires
            a < b,
    ;
    assert(((a >> 56u64) & 0xffu64) == ((b >> 56u64) & 0xffu64) && ((a >> 48u64) & 0xffu64) == ((b >> 48u64) & 0xffu64) && ((a >> 40u64) & 0xffu64) == ((b >> 40u64) & 0xffu64) && ((a >> 32u64) & 0xffu64) != ((b >> 32u64) & 0xffu64) ==> ((a >> 32u64) & 0xffu64) < ((b >> 32u64) & 0xffu64)) by (bit_vector)
        requires
            a < b,
    ;
    assert(((a >> 56u64) & 0xffu64) == ((b >> 56u64) & 0xffu64) && ((a >> 48u64) & 0xffu64) == ((b >> 48u64) & 0xffu64) && ((a >> 40u64) & 0xffu64) == ((b >> 40u64) & 0xffu64) && ((a >> 32u64) & 0xffu64) == ((b >> 32u64) & 0xffu64) && ((a >> 24u64) & 0xffu64) != ((b >> 24u64) & 0xffu64) ==> ((a >> 24u64) & 0xffu64) < ((b >> 24u64) & 0xffu64)) by (bit_vector)
        requires
            a < b,
    ;
    assert(((a >> 56u64) & 0xffu64) == ((b >> 56u64) & 0xffu64) && ((a >> 48u64) & 0xffu64) == ((b >> 48u64) & 0xffu64) && ((a >> 40u64) & 0xffu64) == ((b >> 40u64) & 0xffu64) && ((a >> 32u64) & 0xffu64) == ((b >> 32u64) & 0xffu64) && ((a >> 24u64) & 0xffu64) == ((b >> 24u64) & 0xffu64) && ((a >> 16u64) & 0xffu64) != ((b >> 16u64) & 0xffu64) ==> ((a >> 16u64) & 0xffu64) < ((b >> 16u64) & 0xffu64)) by (bit_vector)
        requires
            a < b,
    ;
    assert(((a >> 56u64) & 0xffu64) == ((b >> 56u64) & 0xffu64) && ((a >> 48u64) & 0xffu64) == ((b >> 48u64) & 0xffu64) && ((a >> 40u64) & 0xffu64) == ((b >> 40u64) & 0xffu64) && ((a >> 32u64) & 0xffu64) == ((b >> 32u64) & 0xffu64) && ((a >> 24u64) & 0xffu64) == ((b >> 24u64) & 0xffu64) && ((a >> 16u64) & 0xffu64) == ((b >> 16u64) & 0xffu64) && ((a >> 8u64) & 0xffu64) != ((b >> 8u64) & 0xffu64) ==> ((a >> 8u64) & 0xffu64) < ((b >> 8u64) & 0xffu64)) by (bit_vector)
        requires
            a < b,
    ;
    assert(((a >> 56u64) & 0xffu64) == ((b >> 56u64) & 0xffu64) && ((a >> 48u64) & 0xffu64) == ((b >> 48u64) & 0xffu64) && ((a >> 40u64) & 0xffu64) == ((b >> 40u64) & 0xffu64) && ((a >> 32u64) & 0xffu64) == ((b >> 32u64) & 0xffu64) && ((a >> 24u64) & 0xffu64) == ((b >> 24u64) & 0xffu64) && ((a >> 16u64) & 0xffu64) == ((b >> 16u64) & 0xffu64) && ((a >> 8u64) & 0xffu64) == ((b >> 8u64) & 0xffu64) && (a & 0xffu64) != (b & 0xffu64) ==> (a & 0xffu64) < (b & 0xffu64)) by (bit_vector)
        requires
            a < b,
    ;
    assert(((a >> 56u64) & 0xffu64) == ((b >> 56u64) & 0xffu64) && ((a >> 48u64) & 0xffu64) == ((b >> 48u64) & 0xffu64) && ((a >> 40u64) & 0xffu64) == ((b >> 40u64) & 0xffu64) && ((a >> 32u64) & 0xffu64) == ((b >> 32u64) & 0xffu64) && ((a >> 24u64) & 0xffu64) == ((b >> 24u64) & 0xffu64) && ((a >> 16u64) & 0xffu64) == ((b >> 16u64) & 0xffu64) && ((a >> 8u64) & 0xffu64) == ((b >> 8u64) & 0xffu64) && (a & 0xffu64) == (b & 0xffu64) ==> a == b) by (bit_vector);
    lemma_be_byte_values(a);
    lemma_be_byte_values(b);
    reveal_with_fuel(lex_lt, 9);
}

/// Each byte of `be_bytes(x)` is the matching masked shift of `x`, read as a number.
proof fn lemma_be_byte_values(x: u64)
    ensures
        be_bytes(x)[0] as u64 == ((x >> 56u64) & 0xffu64),
        be_bytes(x)[1] as u64 == ((x >> 48u64) & 0xffu64),
        be_bytes(x)[2] as u64 == ((x >> 40u64) & 0xffu64),
        be_bytes(x)[3] as u64 == ((x >> 32u64) & 0xffu64),
        be_bytes(x)[4] as u64 == ((x >> 24u64) & 0xffu64),
        be_bytes(x)[5] as u64 == ((x >> 16u64) & 0xffu64),
        be_bytes(x)[6] as u64 == ((x >> 8u64) & 0xffu64),
        be_bytes(x)[7] as u64 == (x & 0xffu64),
{
    assert((((x >> 56u64) & 0xffu64) as u8) as u64 == ((x >> 56u64) & 0xffu64)) by (bit_vector);
    assert((((x >> 48u64) & 0xffu64) as u8) as u64 == ((x >> 48u64) & 0xffu64)) by (bit_vector);
    assert((((x >> 40u64) & 0xffu64) as u8) as u64 == ((x >> 40u64) & 0xffu64)) by (bit_vector);
    assert((((x >> 32u64) & 0xffu64) as u8) as u64 == ((x >> 32u64) & 0xffu64)) by (bit_vector);
    assert((((x >> 24u64) & 0xffu64) as u8) as u64 == ((x >> 24u64) & 0xffu64)) by (bit_vector);
    assert((((x >> 16u64) & 0xffu64) as u8) as u64 == ((x >> 16u64) & 0xffu64)) by (bit_vector);
    assert((((x >> 8u64) & 0xffu64) as u8) as u64 == ((x >> 8u64) & 0xffu64)) by (bit_vector);
    assert(((x & 0xffu64) as u8) as u64 == (x & 0xffu64)) by (bit_vector);
}

/// A row key of one table never falls under the row prefix of another,
/// as long as neither name holds the separator.
pub proof fn lemma_tables_disjoint(t1: Seq<u8>, t2: Seq<u8>, id: u64)
    requires
        t1 != t2,
        !holds_byte(t1, SEPARATOR),
        !holds_byte(t2, SEPARATOR),
    ensures
        !has_prefix(data_key_bytes(t2, id), data_prefix_bytes(t1)),
{
    let k = data_key_bytes(t2, id);
    let p = data_prefix_bytes(t1);
    if has_prefix(k, p) {
        assert forall|i: int| 0 <= i < t1.len() && i < t2.len() implies t1[i] == t2[i] by {
            assert(k[5 + i] == p[5 + i]);
        }
        if t1.len() < t2.len() {
            assert(k[5 + t1.len() as int] == p[5 + t1.len() as int]);
            assert(t2[t1.len() as int] == SEPARATOR);
        } else if t1.len() > t2.len() {
            assert(k[5 + t2.len() as int] == p[5 + t2.len() as int]);
            assert(t1[t2.len() as int] == SEPARATOR);
        } else {
            assert(t1 == t2);
        }
    }
}

/// No schema key falls under a row prefix: the two start with different bytes.
pub proof fn lemma_schema_not_data(t: Seq<u8>, u: Seq<u8>)
    ensures
        !has_prefix(schema_key_bytes(t), data_prefix_bytes(u)),
{
    if has_prefix(schema_key_bytes(t), data_prefix_bytes(u)) {
        assert(schema_key_bytes(t)[0] == data_prefix_bytes(u)[0]);
    }
}

} // verus!
