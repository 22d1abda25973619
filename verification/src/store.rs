//! The shared key-value mapping and its mathematical model.
//!
//! A [`KvStore`] maps string keys to string values. Its model is a finite
//! map from key characters to value characters, and every operation's
//! contract is stated against that map. Absence of a key is an ordinary
//! result, never an error. The laws at the bottom state how runs of
//! operations behave once the server's lock discipline has placed them in
//! some linear order: each call sees the store exactly as the calls
//! ordered before it left it.

use vstd::hash_map::StringHashMap;
use vstd::prelude::*;

verus! {

/// The shared key-value mapping: the unit of state all channels read and
/// mutate. `insert` overwrites unconditionally and hands back the value it
/// displaced; `remove` hands back the value it deleted.
pub struct KvStore {
    m: StringHashMap<String>,
}

impl View for KvStore {
    type V = Map<Seq<char>, Seq<char>>;

    closed spec fn view(&self) -> Map<Seq<char>, Seq<char>> {
        self.m@.map_values(|v: String| v@)
    }
}

impl KvStore {
    /// Creates an empty store.
    pub fn new() -> (r: Self)
        ensures
            r@ == Map::<Seq<char>, Seq<char>>::empty(),
    {
        let r = KvStore { m: StringHashMap::new() };
        proof {
            assert(r@ =~= Map::<Seq<char>, Seq<char>>::empty());
        }
        r
    }

    /// Returns the current value for `key` if present, else absent.
    /// No side effects.
    pub fn get(&self, key: &str) -> (r: Option<String>)
        ensures
            match r {
                Some(v) => self@.contains_key(key@) && v@ == self@[key@],
                None => !self@.contains_key(key@),
            },
    {
        match self.m.get(key) {
            Some(v) => Some(v.clone()),
            None => None,
        }
    }

    /// Sets `key` to `value`, overwriting unconditionally, and returns
    /// whatever value occupied `key` immediately before this call.
    pub fn insert(&mut self, key: String, value: String) -> (prev: Option<String>)
        ensures
            final(self)@ == old(self)@.insert(key@, value@),
            match prev {
                Some(v) => old(self)@.contains_key(key@) && v@ == old(self)@[key@],
                None => !old(self)@.contains_key(key@),
            },
    {
        let prev = match self.m.get(key.as_str()) {
            Some(v) => Some(v.clone()),
            None => None,
        };
        self.m.insert(key, value);
        proof {
            assert(self@ =~= old(self)@.insert(key@, value@));
        }
        prev
    }

    /// Deletes `key` if present, returning the value that was removed, or
    /// absent if the key did not exist (in which case the store is
    /// unchanged).
    pub fn remove(&mut self, key: &str) -> (removed: Option<String>)
        ensures
            final(self)@ == old(self)@.remove(key@),
            match removed {
                Some(v) => old(self)@.contains_key(key@) && v@ == old(self)@[key@],
                None => !old(self)@.contains_key(key@) && final(self)@ == old(self)@,
            },
    {
        let removed = match self.m.get(key) {
            Some(v) => Some(v.clone()),
            None => None,
        };
        self.m.remove(key);
        proof {
            assert(self@ =~= old(self)@.remove(key@));
            if !old(self)@.contains_key(key@) {
                assert(self@ =~= old(self)@);
            }
        }
        removed
    }
}

/// One mutating store call, as the model sees it once the lock has placed
/// it in a linear order.
pub enum StoreOp {
    /// `insert(key, value)`.
    Insert { key: Seq<char>, value: Seq<char> },
    /// `remove(key)`.
    Remove { key: Seq<char> },
}

/// The key a call addresses.
pub open spec fn op_key(op: StoreOp) -> Seq<char> {
    match op {
        StoreOp::Insert { key, .. } => key,
        StoreOp::Remove { key } => key,
    }
}

/// Whether a call is an insert of `key`.
pub open spec fn inserts_key(op: StoreOp, key: Seq<char>) -> bool {
    op matches StoreOp::Insert { key: k, .. } && k == key
}

/// The value carried by an insert.
pub open spec fn op_value(op: StoreOp) -> Seq<char> {
    match op {
        StoreOp::Insert { value, .. } => value,
        StoreOp::Remove { .. } => arbitrary(),
    }
}

/// The mapping after one call.
pub open spec fn apply_op(m: Map<Seq<char>, Seq<char>>, op: StoreOp) -> Map<Seq<char>, Seq<char>> {
    match op {
        StoreOp::Insert { key, value } => m.insert(key, value),
        StoreOp::Remove { key } => m.remove(key),
    }
}

/// The previous (for insert) or removed (for remove) value the call
/// returns: the binding of its key just before it runs.
pub open spec fn op_result(m: Map<Seq<char>, Seq<char>>, op: StoreOp) -> Option<Seq<char>> {
    if m.contains_key(op_key(op)) {
        Some(m[op_key(op)])
    } else {
        None
    }
}

/// The mapping after a run of calls, applied in order.
pub open spec fn apply_ops(m: Map<Seq<char>, Seq<char>>, ops: Seq<StoreOp>) -> Map<
    Seq<char>,
    Seq<char>,
>
    decreases ops.len(),
{
    if ops.len() == 0 {
        m
    } else {
        apply_op(apply_ops(m, ops.drop_last()), ops.last())
    }
}

/// What the call at position `i` of a run returns.
pub open spec fn result_at(
    m: Map<Seq<char>, Seq<char>>,
    ops: Seq<StoreOp>,
    i: int,
) -> Option<Seq<char>> {
    op_result(apply_ops(m, ops.take(i)), ops[i])
}

/// Law: a `get(k)` right after an `insert(k, v)` observes exactly `v`,
/// whatever the store held before.
pub proof fn lemma_insert_then_get(m: Map<Seq<char>, Seq<char>>, k: Seq<char>, v: Seq<char>)
    ensures
        m.insert(k, v).contains_key(k),
        m.insert(k, v)[k] == v,
{
}

/// Law: a key that no call of a run ever inserted is absent from a store
/// that started empty; `get(k)` on it returns absent.
pub proof fn lemma_never_inserted_absent(ops: Seq<StoreOp>, k: Seq<char>)
    requires
        forall|i: int| 0 <= i < ops.len() ==> !inserts_key(ops[i], k),
    ensures
        !apply_ops(Map::<Seq<char>, Seq<char>>::empty(), ops).contains_key(k),
    decreases ops.len(),
{
    if ops.len() > 0 {
        assert(forall|i: int|
            0 <= i < ops.drop_last().len() ==> !inserts_key(ops.drop_last()[i], k));
        lemma_never_inserted_absent(ops.drop_last(), k);
        assert(!inserts_key(ops.last(), k));
    }
}

/// Law: `remove(k)` on an absent key returns absent and leaves the store
/// unchanged; on a present key it returns the prior value, and a `get(k)`
/// afterwards returns absent.
pub proof fn lemma_remove_semantics(m: Map<Seq<char>, Seq<char>>, k: Seq<char>)
    ensures
        !m.contains_key(k) ==> op_result(m, StoreOp::Remove { key: k }) is None && apply_op(
            m,
            StoreOp::Remove { key: k },
        ) == m,
        m.contains_key(k) ==> op_result(m, StoreOp::Remove { key: k }) == Some(m[k]),
        !apply_op(m, StoreOp::Remove { key: k }).contains_key(k),
{
    if !m.contains_key(k) {
        assert(m.remove(k) =~= m);
    }
}

/// Law: of two inserts on one key, the second returns the first's value as
/// the displaced one, and a `get(k)` after both observes the second value.
pub proof fn lemma_insert_insert(
    m: Map<Seq<char>, Seq<char>>,
    k: Seq<char>,
    v1: Seq<char>,
    v2: Seq<char>,
)
    ensures
        op_result(m.insert(k, v1), StoreOp::Insert { key: k, value: v2 }) == Some(v1),
        m.insert(k, v1).insert(k, v2)[k] == v2,
        m.insert(k, v1).insert(k, v2).contains_key(k),
{
}

/// Law: after a run of inserts on pairwise distinct keys, every key of the
/// run is present with the value its own insert carried — no update is
/// lost, whatever order the lock gave the calls.
pub proof fn lemma_distinct_inserts_all_present(
    m: Map<Seq<char>, Seq<char>>,
    ops: Seq<StoreOp>,
    i: int,
)
    requires
        forall|j: int| 0 <= j < ops.len() ==> ops[j] is Insert,
        forall|j1: int, j2: int|
            0 <= j1 < j2 < ops.len() ==> op_key(ops[j1]) != op_key(ops[j2]),
        0 <= i < ops.len(),
    ensures
        apply_ops(m, ops).contains_key(op_key(ops[i])),
        apply_ops(m, ops)[op_key(ops[i])] == op_value(ops[i]),
    decreases ops.len(),
{
    let last = ops.last();
    if i == ops.len() - 1 {
        assert(apply_ops(m, ops) == apply_ops(m, ops.drop_last()).insert(
            op_key(last),
            op_value(last),
        ));
    } else {
        lemma_distinct_inserts_all_present(m, ops.drop_last(), i);
        assert(op_key(ops[i]) != op_key(last));
    }
}

/// Law: a run of inserts on one key returns displaced values that chain
/// with some linear order of application: the first call sees what the
/// store held initially, and every later call sees exactly the value the
/// call ordered just before it wrote.
pub proof fn lemma_same_key_inserts_chain(
    m: Map<Seq<char>, Seq<char>>,
    ops: Seq<StoreOp>,
    k: Seq<char>,
    i: int,
)
    requires
        forall|j: int| 0 <= j < ops.len() ==> inserts_key(ops[j], k),
        0 <= i < ops.len(),
    ensures
        i == 0 ==> result_at(m, ops, i) == (if m.contains_key(k) {
            Some(m[k])
        } else {
            None
        }),
        i > 0 ==> result_at(m, ops, i) == Some(op_value(ops[i - 1])),
{
    if i == 0 {
        assert(ops.take(0) =~= Seq::<StoreOp>::empty());
        assert(apply_ops(m, ops.take(0)) == m);
    } else {
        assert(ops.take(i).drop_last() =~= ops.take(i - 1));
        assert(ops.take(i).last() == ops[i - 1]);
        assert(apply_ops(m, ops.take(i)) == apply_ops(m, ops.take(i - 1)).insert(
            k,
            op_value(ops[i - 1]),
        ));
    }
}

} // verus!
