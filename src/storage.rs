//! The adapter: schemas and rows of named tables kept in one sled database.
//! Each mutation takes the storage by value and hands it back with its
//! outcome, so that a caller can chain mutations without holding a borrow.
use crate::backend::{self, agrees_at, db_contents, db_next_id, entry_key, entry_value, scan_of};
use crate::key::{
    data_key, data_key_bytes, data_prefix, lemma_schema_not_data, data_prefix_bytes, has_prefix, lex_lt, schema_key,
    schema_key_bytes,
};
use vstd::prelude::*;
use vstd::std_specs::vec::vec_clone_deep_view_proof;
use vstd::string::StringSliceAdditionalSpecFns;

verus! {

broadcast use vec_clone_deep_view_proof;

/// A failure of the storage engine: I/O, corruption, or the identifier counter.
pub enum StoreError {
    Storage(sled::Error),
}

/// The outcome of a mutation: the storage, handed back in either case, with
/// a value or with the failure.
pub type MutResult<T, U> = Result<(T, U), (T, StoreError)>;

/// The longest table name, in bytes, that a key can be built from.
pub open spec fn name_fits(t: Seq<u8>) -> bool {
    t.len() + 14 <= usize::MAX
}

/// What is left of `m` once table `t` is gone: no row under its prefix and
/// no schema.
pub open spec fn without_table(m: Map<Seq<u8>, Seq<u8>>, t: Seq<u8>) -> Map<Seq<u8>, Seq<u8>> {
    m.remove_keys(m.dom().filter(|k: Seq<u8>| has_prefix(k, data_prefix_bytes(t)))).remove(
        schema_key_bytes(t),
    )
}

/// The keys of the entries among the first `n` of a scan.
pub open spec fn scanned_keys<E>(r: Seq<Result<(Vec<u8>, Vec<u8>), E>>, n: int) -> Set<Seq<u8>> {
    Set::new(|k: Seq<u8>| exists|j: int| 0 <= j < n && r[j] is Ok && #[trigger] entry_key(r[j]) == k)
}

/// `k` is the row key of table `t` for an identifier that the counter of
/// `before` handed out, leaving `after` to hand out only larger ones.
pub open spec fn issued(before: SledStorage, after: SledStorage, t: Seq<u8>, k: Seq<u8>) -> bool {
    exists|id: u64|
        #[trigger] data_key_bytes(t, id) == k && id >= before.next_id() && after.next_id() == id + 1
}

/// The storage that a mutation handed back, with either outcome.
pub open spec fn handed_back<U>(r: MutResult<SledStorage, U>) -> SledStorage {
    match r {
        Ok((s, _)) => s,
        Err((s, _)) => s,
    }
}

/// A copy of `b`.
fn copy_bytes(b: &Vec<u8>) -> (r: Vec<u8>)
    ensures
        r@ == b@,
{
    let r = b.clone();
    assert(r.deep_view() == b.deep_view());
    assert(r@ =~= b@) by {
        assert forall|i: int| 0 <= i < b@.len() implies r@[i] == b@[i] by {
            assert(r.deep_view()[i] == b.deep_view()[i]);
        }
    }
    r
}

/// What a failed deletion of table `t` leaves of `m0` in `m`: nothing added
/// or changed, every key outside the table as it was, and either the schema
/// as it was (the failure came while removing rows) or no row left (it came
/// while removing the schema).
pub open spec fn partly_deleted(m0: Map<Seq<u8>, Seq<u8>>, m: Map<Seq<u8>, Seq<u8>>, t: Seq<u8>) -> bool {
    &&& m.submap_of(m0)
    &&& forall|k: Seq<u8>|
        !has_prefix(k, data_prefix_bytes(t)) && k != schema_key_bytes(t) ==> #[trigger] agrees_at(
            m,
            m0,
            k,
        )
    &&& agrees_at(m, m0, schema_key_bytes(t)) || forall|k: Seq<u8>|
        #[trigger] m.contains_key(k) ==> !has_prefix(k, data_prefix_bytes(t))
}

/// A failure while removing the rows that a scan listed, after the first
/// `i` of them were removed, leaves a partly deleted table.
proof fn lemma_failed_in_rows<E>(
    m0: Map<Seq<u8>, Seq<u8>>,
    m: Map<Seq<u8>, Seq<u8>>,
    t: Seq<u8>,
    items: Seq<Result<(Vec<u8>, Vec<u8>), E>>,
    i: int,
)
    requires
        scan_of(m0, data_prefix_bytes(t), items),
        0 <= i < items.len(),
        m.submap_of(m0.remove_keys(scanned_keys(items, i))),
        items[i] is Ok ==> m.remove(entry_key(items[i])) == m0.remove_keys(scanned_keys(items, i)).remove(
            entry_key(items[i]),
        ),
        items[i] is Err ==> m == m0.remove_keys(scanned_keys(items, i)),
    ensures
        partly_deleted(m0, m, t),
{
    let cur = m0.remove_keys(scanned_keys(items, i));
    let dp = data_prefix_bytes(t);
    lemma_schema_not_data(t, t);
    assert forall|k: Seq<u8>| #[trigger] scanned_keys(items, i).contains(k) implies has_prefix(k, dp) by {
        let j = choose|j: int| 0 <= j < i && items[j] is Ok && #[trigger] entry_key(items[j]) == k;
        assert(items[j] is Ok);
    }
    assert forall|k: Seq<u8>| #[trigger] m.contains_key(k) implies m0.contains_key(k) && m[k] == m0[k] by {
        assert(cur.contains_key(k));
    }
    assert forall|k: Seq<u8>| !has_prefix(k, dp) implies #[trigger] agrees_at(m, m0, k) by {
        assert(!scanned_keys(items, i).contains(k));
        if items[i] is Ok {
            assert(has_prefix(entry_key(items[i]), dp));
            assert(m.remove(entry_key(items[i])).contains_key(k) == cur.remove(entry_key(items[i])).contains_key(k));
        }
    }
    assert(agrees_at(m, m0, schema_key_bytes(t)));
}

/// A failure while removing the schema, once no row is left, leaves a
/// partly deleted table.
proof fn lemma_failed_at_schema(
    m0: Map<Seq<u8>, Seq<u8>>,
    rowless: Map<Seq<u8>, Seq<u8>>,
    m: Map<Seq<u8>, Seq<u8>>,
    t: Seq<u8>,
)
    requires
        rowless == m0.remove_keys(m0.dom().filter(|k: Seq<u8>| has_prefix(k, data_prefix_bytes(t)))),
        m.remove(schema_key_bytes(t)) == rowless.remove(schema_key_bytes(t)),
        m.submap_of(rowless),
    ensures
        partly_deleted(m0, m, t),
{
    let sk = schema_key_bytes(t);
    assert forall|k: Seq<u8>| #[trigger] m.contains_key(k) implies m0.contains_key(k) && m[k] == m0[k] by {
        assert(rowless.contains_key(k));
    }
    assert forall|k: Seq<u8>|
        !has_prefix(k, data_prefix_bytes(t)) && k != sk implies #[trigger] agrees_at(m, m0, k) by {
        assert(m.remove(sk).contains_key(k) == rowless.remove(sk).contains_key(k));
    }
    assert forall|k: Seq<u8>| #[trigger] m.contains_key(k) implies !has_prefix(k, data_prefix_bytes(t)) by {
        assert(rowless.contains_key(k));
    }
}

/// Table schemas and rows in a sled database.
///
/// `sled::Db` is a shared handle, and every contract here reads the database
/// as this value alone changes it: they assume that no other clone of `tree`
/// writes, or draws identifiers, between calls.
pub struct SledStorage {
    pub tree: sled::Db,
}

impl SledStorage {
    /// What the database holds.
    pub open spec fn contents(&self) -> Map<Seq<u8>, Seq<u8>> {
        db_contents(self.tree)
    }

    /// The least identifier that the next `generate_id` may return.
    pub open spec fn next_id(&self) -> nat {
        db_next_id(self.tree)
    }

    /// Removes every row of `table_name`, then its schema. Removing a table
    /// that has neither succeeds. The two steps are not atomic: a failure
    /// between them leaves rows without a schema.
    pub fn delete_schema(self, table_name: &str) -> (r: MutResult<SledStorage, ()>)
        requires
            name_fits(table_name.spec_bytes()),
        ensures
            r matches Ok((s, _)) ==> s.contents() == without_table(
                self.contents(),
                table_name.spec_bytes(),
            ),
            r is Err ==> partly_deleted(self.contents(), handed_back(r).contents(), table_name.spec_bytes()),
            handed_back(r).next_id() == self.next_id(),
    {
        let ghost t = table_name.spec_bytes();
        let ghost m0 = self.contents();
        let mut s = self;
        let prefix = data_prefix(table_name);
        let items = backend::scan_prefix(&s.tree, prefix.as_slice());
        let n = items.len();
        let mut i: usize = 0;
        while i < n
            invariant
                n == items@.len(),
                0 <= i <= n,
                m0 == self.contents(),
                t == table_name.spec_bytes(),
                scan_of(m0, data_prefix_bytes(t), items@),
                forall|j: int| 0 <= j < i ==> #[trigger] items@[j] is Ok,
                s.contents() == m0.remove_keys(scanned_keys(items@, i as int)),
                s.next_id() == self.next_id(),
            decreases n - i,
        {
            match &items[i] {
                Ok((k, _)) => {
                    match backend::remove(&mut s.tree, k.as_slice()) {
                        Ok(()) => {},
                        Err(e) => {
                            proof {
                                lemma_failed_in_rows(m0, s.contents(), t, items@, i as int);
                            }
                            return Err((s, StoreError::Storage(e)));
                        },
                    }
                    assert(scanned_keys(items@, i + 1) == scanned_keys(items@, i as int).insert(
                        k@,
                    ));
                    assert(m0.remove_keys(scanned_keys(items@, i + 1)) == m0.remove_keys(
                        scanned_keys(items@, i as int),
                    ).remove(k@));
                },
                Err(e) => {
                    proof {
                        lemma_failed_in_rows(m0, s.contents(), t, items@, i as int);
                    }
                    return Err((s, StoreError::Storage(e.clone())));
                },
            }
            i = i + 1;
        }
        let gone = Ghost(m0.dom().filter(|k: Seq<u8>| has_prefix(k, data_prefix_bytes(t))));
        assert forall|k: Seq<u8>| #[trigger] scanned_keys(items@, n as int).contains(k) <==> gone@.contains(k) by {
            if scanned_keys(items@, n as int).contains(k) {
                let j = choose|j: int| 0 <= j < n && items@[j] is Ok && #[trigger] entry_key(items@[j]) == k;
                assert(items@[j] is Ok);
            }
            if gone@.contains(k) {
                assert(m0.contains_key(k) && has_prefix(k, data_prefix_bytes(t)));
                let j = choose|j: int| 0 <= j < n && #[trigger] entry_key(items@[j]) == k;
                assert(items@[j] is Ok);
            }
        }
        assert(scanned_keys(items@, n as int) =~= gone@);
        let ghost rowless = s.contents();
        let key = schema_key(table_name);
        match backend::remove(&mut s.tree, key.as_slice()) {
            Ok(()) => {},
            Err(e) => {
                proof {
                    lemma_failed_at_schema(m0, rowless, s.contents(), t);
                }
                return Err((s, StoreError::Storage(e)));
            },
        }
        Ok((s, ()))
    }

    /// Takes the next identifier from the database's counter and returns the
    /// row key `"data/" + table_name + "/"` followed by its eight big-endian
    /// bytes. Identifiers are shared by all tables and never reused.
    pub fn generate_id(self, table_name: &str) -> (r: MutResult<SledStorage, Vec<u8>>)
        requires
            name_fits(table_name.spec_bytes()),
        ensures
            handed_back(r).contents() == self.contents(),
            handed_back(r).next_id() >= self.next_id(),
            r matches Ok((s, k)) ==> issued(self, s, table_name.spec_bytes(), k@),
    {
        let mut s = self;
        match backend::generate_id(&mut s.tree) {
            Ok(id) => {
                let k = data_key(table_name, id);
                Ok((s, k))
            },
            Err(e) => Err((s, StoreError::Storage(e))),
        }
    }

    /// Stores the encoded schema of `table_name` under `"schema/" + table_name`,
    /// in place of any schema stored there before.
    pub fn insert_schema(self, table_name: &str, schema: &[u8]) -> (r: MutResult<SledStorage, ()>)
        requires
            name_fits(table_name.spec_bytes()),
        ensures
            handed_back(r).next_id() == self.next_id(),
            r matches Ok((s, _)) ==> s.contents() == self.contents().insert(
                schema_key_bytes(table_name.spec_bytes()),
                schema@,
            ),
            r is Err ==> handed_back(r).contents().remove(schema_key_bytes(table_name.spec_bytes()))
                == self.contents().remove(schema_key_bytes(table_name.spec_bytes())),
    {
        let mut s = self;
        let key = schema_key(table_name);
        match backend::insert(&mut s.tree, key.as_slice(), schema) {
            Ok(()) => Ok((s, ())),
            Err(e) => Err((s, StoreError::Storage(e))),
        }
    }

    /// Stores an encoded row at `key`, in place of any value there before.
    pub fn insert_data(self, key: &[u8], row: &[u8]) -> (r: MutResult<SledStorage, ()>)
        ensures
            handed_back(r).next_id() == self.next_id(),
            r matches Ok((s, _)) ==> s.contents() == self.contents().insert(key@, row@),
            r is Err ==> handed_back(r).contents().remove(key@) == self.contents().remove(key@),
    {
        let mut s = self;
        match backend::insert(&mut s.tree, key, row) {
            Ok(()) => Ok((s, ())),
            Err(e) => Err((s, StoreError::Storage(e))),
        }
    }

    /// Removes the value at `key`; a key that holds nothing is no error.
    pub fn delete_data(self, key: &[u8]) -> (r: MutResult<SledStorage, ()>)
        ensures
            handed_back(r).next_id() == self.next_id(),
            r matches Ok((s, _)) ==> s.contents() == self.contents().remove(key@),
            r is Err ==> handed_back(r).contents().remove(key@) == self.contents().remove(key@),
            r is Err ==> handed_back(r).contents().submap_of(self.contents()),
    {
        let mut s = self;
        match backend::remove(&mut s.tree, key) {
            Ok(()) => Ok((s, ())),
            Err(e) => Err((s, StoreError::Storage(e))),
        }
    }

    /// The encoded schema of `table_name`, or `None` where the table has none.
    pub fn fetch_schema(&self, table_name: &str) -> (r: Result<Option<Vec<u8>>, StoreError>)
        requires
            name_fits(table_name.spec_bytes()),
        ensures
            r matches Ok(Some(v)) ==> self.contents().contains_key(
                schema_key_bytes(table_name.spec_bytes()),
            ) && self.contents()[schema_key_bytes(table_name.spec_bytes())] == v@,
            r matches Ok(None) ==> !self.contents().contains_key(
                schema_key_bytes(table_name.spec_bytes()),
            ),
    {
        let key = schema_key(table_name);
        match backend::get(&self.tree, key.as_slice()) {
            Ok(v) => Ok(v),
            Err(e) => Err(StoreError::Storage(e)),
        }
    }

    /// The rows of `table_name` as (key, encoded row) pairs in ascending key
    /// order, hence in ascending identifier order. A failure while scanning
    /// stands in place of the entry where it came.
    pub fn scan_data(&self, table_name: &str) -> (r: Vec<Result<(Vec<u8>, Vec<u8>), StoreError>>)
        requires
            name_fits(table_name.spec_bytes()),
        ensures
            scan_of(self.contents(), data_prefix_bytes(table_name.spec_bytes()), r@),
    {
        let ghost m = self.contents();
        let ghost p = data_prefix_bytes(table_name.spec_bytes());
        let prefix = data_prefix(table_name);
        let items = backend::scan_prefix(&self.tree, prefix.as_slice());
        let mut out: Vec<Result<(Vec<u8>, Vec<u8>), StoreError>> = Vec::new();
        let n = items.len();
        let mut i: usize = 0;
        while i < n
            invariant
                n == items@.len(),
                0 <= i <= n,
                out@.len() == i,
                scan_of(m, p, items@),
                forall|j: int|
                    0 <= j < i ==> (#[trigger] out@[j] is Ok <==> items@[j] is Ok) && (out@[j] is Ok
                        ==> entry_key(out@[j]) == entry_key(items@[j]) && entry_value(out@[j])
                        == entry_value(items@[j])),
            decreases n - i,
        {
            match &items[i] {
                Ok((k, v)) => {
                    out.push(Ok((copy_bytes(k), copy_bytes(v))));
                },
                Err(e) => {
                    out.push(Err(StoreError::Storage(e.clone())));
                },
            }
            i = i + 1;
        }
        assert forall|j: int| 0 <= j < n implies (#[trigger] out@[j] is Ok <==> items@[j] is Ok) by {}
        assert forall|i1: int, j1: int|
            0 <= i1 < j1 < out@.len() && #[trigger] out@[i1] is Ok && #[trigger] out@[j1] is Ok implies lex_lt(
            entry_key(out@[i1]),
            entry_key(out@[j1]),
        ) by {
            assert(items@[i1] is Ok && items@[j1] is Ok);
        }
        proof {
            if forall|j: int| 0 <= j < out@.len() ==> #[trigger] out@[j] is Ok {
                assert forall|k: Seq<u8>| #[trigger] m.contains_key(k) && has_prefix(k, p) implies exists|j: int|
                    0 <= j < out@.len() && #[trigger] entry_key(out@[j]) == k by {
                    assert forall|j: int| 0 <= j < n implies #[trigger] items@[j] is Ok by {
                        assert(out@[j] is Ok);
                    }
                    let j = choose|j: int| 0 <= j < n && #[trigger] entry_key(items@[j]) == k;
                    assert(out@[j] is Ok);
                    assert(entry_key(out@[j]) == k);
                }
            }
        }
        out
    }
}

} // verus!
