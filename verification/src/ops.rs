//! Laws of operation sequences over the task mapping: what a lookup sees
//! after any run of inserts, updates and deletes.
//!
//! `Store::insert`, `Store::update` and `Store::delete` each ensure that
//! the new task mapping is exactly `apply_op` of the matching operation,
//! so these laws carry over to any run of store calls.

use vstd::prelude::*;

use crate::store::TaskView;

verus! {

/// One mutating task operation, as it acts on the task mapping.
pub ghost enum TaskOp {
    Insert { key: u64, task: TaskView },
    Update { key: u64, task: TaskView },
    Delete { key: u64 },
}

/// The key an operation touches.
pub open spec fn op_key(op: TaskOp) -> u64 {
    match op {
        TaskOp::Insert { key, .. } => key,
        TaskOp::Update { key, .. } => key,
        TaskOp::Delete { key } => key,
    }
}

/// What a lookup of the touched key sees right after the operation:
/// the written record, or absence after a delete.
pub open spec fn op_result(op: TaskOp) -> Option<TaskView> {
    match op {
        TaskOp::Insert { task, .. } => Some(task),
        TaskOp::Update { task, .. } => Some(task),
        TaskOp::Delete { .. } => None,
    }
}

/// The effect of one operation on the mapping; insert and update act
/// identically, and delete removes.
pub open spec fn apply_op(m: Map<u64, TaskView>, op: TaskOp) -> Map<u64, TaskView> {
    match op {
        TaskOp::Insert { key, task } => m.insert(key, task),
        TaskOp::Update { key, task } => m.insert(key, task),
        TaskOp::Delete { key } => m.remove(key),
    }
}

/// The effect of a whole sequence of operations, applied in order.
pub open spec fn apply_ops(m: Map<u64, TaskView>, ops: Seq<TaskOp>) -> Map<u64, TaskView>
    decreases ops.len(),
{
    if ops.len() == 0 {
        m
    } else {
        apply_op(apply_ops(m, ops.drop_last()), ops.last())
    }
}

/// The position of the last operation that touches `id`, or -1 where none
/// does.
pub open spec fn last_touch(ops: Seq<TaskOp>, id: u64) -> int
    decreases ops.len(),
{
    if ops.len() == 0 {
        -1
    } else if op_key(ops.last()) == id {
        ops.len() - 1
    } else {
        last_touch(ops.drop_last(), id)
    }
}

/// The last touch of an id, where there is one, lies inside the sequence.
proof fn lemma_last_touch_range(ops: Seq<TaskOp>, id: u64)
    ensures
        -1 <= last_touch(ops, id) < ops.len(),
    decreases ops.len(),
{
    if ops.len() > 0 {
        lemma_last_touch_range(ops.drop_last(), id);
    }
}

/// A lookup of `id` in a mapping, as an option.
pub open spec fn map_lookup(m: Map<u64, TaskView>, id: u64) -> Option<TaskView> {
    if m.dom().contains(id) {
        Some(m[id])
    } else {
        None
    }
}

/// After any sequence of inserts, updates and deletes, a lookup reflects
/// the last operation that touched the id: the record that operation
/// wrote, absence if it deleted, and the starting contents where no
/// operation touched the id at all.
pub proof fn lemma_lookup_reflects_last_op(m: Map<u64, TaskView>, ops: Seq<TaskOp>, id: u64)
    ensures
        map_lookup(apply_ops(m, ops), id) == {
            let t = last_touch(ops, id);
            if t >= 0 {
                op_result(ops[t])
            } else {
                map_lookup(m, id)
            }
        },
    decreases ops.len(),
{
    if ops.len() > 0 {
        let pre = ops.drop_last();
        lemma_lookup_reflects_last_op(m, pre, id);
        if op_key(ops.last()) != id {
            let t = last_touch(pre, id);
            lemma_last_touch_range(pre, id);
            if t >= 0 {
                assert(pre[t] == ops[t]);
            }
        }
    }
}

/// Distinct-key inserts starting from the empty mapping leave exactly one
/// record per insert: the domain is exactly the set of inserted keys and
/// its size is the number of inserts.
pub proof fn lemma_distinct_inserts_count(ops: Seq<TaskOp>)
    requires
        forall|i: int| 0 <= i < ops.len() ==> ops[i] is Insert,
        forall|i: int, j: int| 0 <= i < j < ops.len() ==> op_key(ops[i]) != op_key(ops[j]),
    ensures
        apply_ops(Map::empty(), ops).dom().finite(),
        apply_ops(Map::empty(), ops).dom().len() == ops.len(),
        forall|id: u64|
            apply_ops(Map::empty(), ops).dom().contains(id) <==> exists|i: int|
                0 <= i < ops.len() && op_key(#[trigger] ops[i]) == id,
    decreases ops.len(),
{
    if ops.len() > 0 {
        let pre = ops.drop_last();
        lemma_distinct_inserts_count(pre);
        let last = ops.last();
        let k = op_key(last);
        assert(forall|i: int| 0 <= i < pre.len() ==> pre[i] == ops[i]);
        assert(!apply_ops(Map::empty(), pre).dom().contains(k));
        assert(apply_ops(Map::empty(), ops).dom() =~= apply_ops(Map::empty(), pre).dom().insert(
            k,
        ));
        assert forall|id: u64| apply_ops(Map::empty(), ops).dom().contains(id) implies exists|
            i: int,
        |
            0 <= i < ops.len() && op_key(#[trigger] ops[i]) == id by {
            if id == k {
                assert(op_key(ops[ops.len() - 1]) == id);
            } else {
                let w = choose|i: int| 0 <= i < pre.len() && op_key(#[trigger] pre[i]) == id;
                assert(op_key(ops[w]) == id);
            }
        }
        assert forall|id: u64|
            (exists|i: int| 0 <= i < ops.len() && op_key(#[trigger] ops[i]) == id) implies
        apply_ops(Map::empty(), ops).dom().contains(id) by {
            let w = choose|i: int| 0 <= i < ops.len() && op_key(#[trigger] ops[i]) == id;
            if w < ops.len() - 1 {
                assert(op_key(pre[w]) == id);
            }
        }
    }
}

} // verus!
