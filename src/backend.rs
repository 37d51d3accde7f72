//! The sled database as this library sees it: a map from byte keys to byte
//! values, and a counter of identifiers.
use crate::key::{has_prefix, lex_lt};
use vstd::prelude::*;

verus! {

#[verifier::external_type_specification]
#[verifier::external_body]
pub struct ExDb(sled::Db);

#[verifier::external_type_specification]
#[verifier::external_body]
pub struct ExSledError(sled::Error);

/// Relies on sled's `Clone` for its error type, to report a failure that a
/// scan handed over inside a shared list. Nothing is claimed of the copy.
pub assume_specification[ <sled::Error as Clone>::clone ](e: &sled::Error) -> sled::Error;

/// What the database's default tree holds: each key with its value.
pub uninterp spec fn db_contents(db: sled::Db) -> Map<Seq<u8>, Seq<u8>>;

/// The least identifier that the database's counter may still hand out.
pub uninterp spec fn db_next_id(db: sled::Db) -> nat;

/// `m1` and `m2` hold the same at `k`: both nothing, or the same value.
pub open spec fn agrees_at(m1: Map<Seq<u8>, Seq<u8>>, m2: Map<Seq<u8>, Seq<u8>>, k: Seq<u8>) -> bool {
    &&& m1.contains_key(k) <==> m2.contains_key(k)
    &&& m1.contains_key(k) ==> m1[k] == m2[k]
}

/// The key of an entry that a scan delivered.
pub open spec fn entry_key<E>(e: Result<(Vec<u8>, Vec<u8>), E>) -> Seq<u8> {
    e->Ok_0.0@
}

/// The value of an entry that a scan delivered.
pub open spec fn entry_value<E>(e: Result<(Vec<u8>, Vec<u8>), E>) -> Seq<u8> {
    e->Ok_0.1@
}

/// What holds of a scan of `m` over prefix `p`, whatever failed during it:
/// a failure can only be the last entry, each entry that came is an entry
/// of `m` under `p`, those come in ascending key order, and where none
/// failed, every key of `m` under `p` came.
pub open spec fn scan_of<E>(m: Map<Seq<u8>, Seq<u8>>, p: Seq<u8>, r: Seq<Result<(Vec<u8>, Vec<u8>), E>>) -> bool {
    &&& forall|i: int| 0 <= i < r.len() - 1 ==> #[trigger] r[i] is Ok
    &&& forall|i: int|
        0 <= i < r.len() && #[trigger] r[i] is Ok ==> {
            &&& has_prefix(entry_key(r[i]), p)
            &&& m.contains_key(entry_key(r[i]))
            &&& m[entry_key(r[i])] == entry_value(r[i])
        }
    &&& forall|i: int, j: int|
        0 <= i < j < r.len() && #[trigger] r[i] is Ok && #[trigger] r[j] is Ok ==> lex_lt(
            entry_key(r[i]),
            entry_key(r[j]),
        )
    &&& (forall|i: int| 0 <= i < r.len() ==> #[trigger] r[i] is Ok) ==> forall|k: Seq<u8>|
        #[trigger] m.contains_key(k) && has_prefix(k, p) ==> exists|i: int|
            0 <= i < r.len() && #[trigger] entry_key(r[i]) == k
}

/// Relies on `sled::Db::generate_id`: an atomic `fetch_add(1)` on the
/// database's counter, made before the step that may fail, so each
/// identifier is above every earlier one and the counter never goes back;
/// the tree's contents are not touched. This holds while this handle is the
/// only one that draws identifiers.
#[verifier::external_body]
pub(crate) fn generate_id(db: &mut sled::Db) -> (r: Result<u64, sled::Error>)
    ensures
        db_contents(*final(db)) == db_contents(*old(db)),
        r matches Ok(id) ==> id >= db_next_id(*old(db)) && db_next_id(*final(db)) == id + 1,
        db_next_id(*final(db)) >= db_next_id(*old(db)),
{
    db.generate_id()
}

/// Relies on `sled::Tree::insert`: on success the key holds the value; a
/// failure changes no other key.
#[verifier::external_body]
pub(crate) fn insert(db: &mut sled::Db, key: &[u8], value: &[u8]) -> (r: Result<(), sled::Error>)
    ensures
        db_next_id(*final(db)) == db_next_id(*old(db)),
        r is Ok ==> db_contents(*final(db)) == db_contents(*old(db)).insert(key@, value@),
        r is Err ==> db_contents(*final(db)).remove(key@) == db_contents(*old(db)).remove(key@),
{
    db.insert(key, value).map(|_| ())
}

/// Relies on `sled::Tree::remove`: on success the key holds nothing, whether
/// or not it held a value before; a failure changes no other key, and leaves
/// at the key either nothing or what was there.
#[verifier::external_body]
pub(crate) fn remove(db: &mut sled::Db, key: &[u8]) -> (r: Result<(), sled::Error>)
    ensures
        db_next_id(*final(db)) == db_next_id(*old(db)),
        r is Ok ==> db_contents(*final(db)) == db_contents(*old(db)).remove(key@),
        r is Err ==> db_contents(*final(db)).remove(key@) == db_contents(*old(db)).remove(key@),
        r is Err ==> db_contents(*final(db)).submap_of(db_contents(*old(db))),
{
    db.remove(key).map(|_| ())
}

/// Relies on `sled::Tree::get`: the value at the key, if there is one.
#[verifier::external_body]
pub(crate) fn get(db: &sled::Db, key: &[u8]) -> (r: Result<Option<Vec<u8>>, sled::Error>)
    ensures
        r matches Ok(Some(v)) ==> db_contents(*db).contains_key(key@) && db_contents(*db)[key@]
            == v@,
        r matches Ok(None) ==> !db_contents(*db).contains_key(key@),
{
    db.get(key).map(|o| o.map(|v| v.to_vec()))
}

/// Relies on `sled::Tree::scan_prefix`: a forward range scan from the prefix
/// up to the first key above every key that starts with it, in ascending key
/// order. A step that fails is retried at the same place by the next one, so
/// the scan ends at the first failure, which comes last.
#[verifier::external_body]
pub(crate) fn scan_prefix(db: &sled::Db, prefix: &[u8]) -> (r: Vec<
    Result<(Vec<u8>, Vec<u8>), sled::Error>,
>)
    ensures
        scan_of(db_contents(*db), prefix@, r@),
{
    let mut out = Vec::new();
    for e in db.scan_prefix(prefix) {
        let failed = e.is_err();
        out.push(e.map(|(k, v)| (k.to_vec(), v.to_vec())));
        if failed {
            break;
        }
    }
    out
}

} // verus!
