//! The node store: kvdb's in-memory database, seen through its contents.
use kvdb::KeyValueDB;
use vstd::prelude::*;

verus! {

#[verifier::external_type_specification]
#[verifier::external_body]
pub struct ExInMemory(kvdb_memorydb::InMemory);

#[verifier::external_type_specification]
#[verifier::external_body]
pub struct ExDBTransaction(kvdb::DBTransaction);

/// One pending write: column, key, and the new value (`None` deletes the key).
pub type StoreOp = (u32, Seq<u8>, Option<Seq<u8>>);

/// What an in-memory database holds: the value under each (column, key).
pub uninterp spec fn store_contents(db: kvdb_memorydb::InMemory) -> Map<(u32, Seq<u8>), Seq<u8>>;

/// The columns an in-memory database was created with.
pub uninterp spec fn store_columns(db: kvdb_memorydb::InMemory) -> Set<u32>;

/// The writes a transaction has collected, in order.
pub uninterp spec fn pending_ops(t: kvdb::DBTransaction) -> Seq<StoreOp>;

/// Applies one write; a write to a missing column is ignored.
pub open spec fn apply_op(m: Map<(u32, Seq<u8>), Seq<u8>>, cols: Set<u32>, op: StoreOp) -> Map<
    (u32, Seq<u8>),
    Seq<u8>,
> {
    if cols.contains(op.0) {
        match op.2 {
            Some(v) => m.insert((op.0, op.1), v),
            None => m.remove((op.0, op.1)),
        }
    } else {
        m
    }
}

/// Applies a sequence of writes in order.
pub open spec fn apply_ops(
    m: Map<(u32, Seq<u8>), Seq<u8>>,
    cols: Set<u32>,
    ops: Seq<StoreOp>,
) -> Map<(u32, Seq<u8>), Seq<u8>>
    decreases ops.len(),
{
    if ops.len() == 0 {
        m
    } else {
        apply_op(apply_ops(m, cols, ops.drop_last()), cols, ops.last())
    }
}

/// Relies on InMemory's KeyValueDB::get: the value stored under `key` in an existing column.
#[verifier::external_body]
pub(crate) fn store_get(db: &kvdb_memorydb::InMemory, col: u32, key: &[u8]) -> (r: Option<Vec<u8>>)
    requires
        store_columns(*db).contains(col),
    ensures
        r.is_some() == store_contents(*db).contains_key((col, key@)),
        r.is_some() ==> r.unwrap()@ == store_contents(*db)[(col, key@)],
{
    match db.get(col, key) {
        Ok(v) => v,
        Err(_) => None,
    }
}

/// Relies on InMemory's KeyValueDB::iter: every (key, value) of an existing column, each once.
#[verifier::external_body]
pub(crate) fn store_entries(db: &kvdb_memorydb::InMemory, col: u32) -> (r: Vec<(Vec<u8>, Vec<u8>)>)
    requires
        store_columns(*db).contains(col),
    ensures
        forall|j: int|
            0 <= j < r.len() ==> #[trigger] store_contents(*db).contains_key((col, r[j].0@))
                && store_contents(*db)[(col, r[j].0@)] == r[j].1@,
        forall|k: Seq<u8>|
            #[trigger] store_contents(*db).contains_key((col, k)) ==> exists|j: int|
                0 <= j < r.len() && r[j].0@ == k,
        forall|j: int, l: int| 0 <= j < l < r.len() ==> r[j].0@ != r[l].0@,
{
    let mut r = Vec::new();
    for kv in db.iter(col) {
        if let Ok((k, v)) = kv {
            r.push((k.to_vec(), v));
        }
    }
    r
}

/// Relies on DBTransaction::new: a transaction with no writes.
#[verifier::external_body]
pub(crate) fn new_transaction() -> (r: kvdb::DBTransaction)
    ensures
        pending_ops(r) == Seq::<StoreOp>::empty(),
{
    kvdb::DBTransaction::new()
}

/// Relies on DBTransaction::put: appends an insert of `value` under `key`.
#[verifier::external_body]
pub(crate) fn transaction_put(t: &mut kvdb::DBTransaction, col: u32, key: &[u8], value: &[u8])
    ensures
        pending_ops(*final(t)) == pending_ops(*old(t)).push((col, key@, Some(value@))),
{
    t.put(col, key, value)
}

/// Relies on DBTransaction::delete: appends a removal of `key`.
#[verifier::external_body]
pub(crate) fn transaction_delete(t: &mut kvdb::DBTransaction, col: u32, key: &[u8])
    ensures
        pending_ops(*final(t)) == pending_ops(*old(t)).push((col, key@, None)),
{
    t.delete(col, key)
}

/// Relies on InMemory's KeyValueDB::write: applies the writes in order, all under one lock;
/// it never returns an error.
#[verifier::external_body]
pub(crate) fn store_write(db: &mut kvdb_memorydb::InMemory, t: kvdb::DBTransaction)
    ensures
        store_columns(*final(db)) == store_columns(*old(db)),
        store_contents(*final(db)) == apply_ops(
            store_contents(*old(db)),
            store_columns(*old(db)),
            pending_ops(t),
        ),
{
    db.write(t).unwrap()
}

} // verus!
