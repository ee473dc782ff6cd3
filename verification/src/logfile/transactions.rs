//! Transaction reconstruction over decoded `$LogFile` LFS records.
//!
//! This layer groups records into the unit a forensic analyst actually reasons about: a
//! **transaction**, a single user/OS action whose redo/undo records are committed (and
//! applied) or rolled back as one atom.
//!
//! Every LFS client record carries a 4-byte **`TransactionId`** that groups related
//! records into a single transaction. Records for different concurrent transactions are
//! **interleaved** in LSN order, so contiguity does not bound a transaction; the
//! `TransactionId` does.
//!
//! `CommitTransaction` seals a transaction; `ForgetTransaction` marks it fully complete.
//! `CompensationLogRecord` is an undo/abort record written while rolling a transaction
//! back. `EndTopLevelAction` and `PrepareTransaction` do **not** by themselves decide the
//! final state.

use vstd::prelude::*;
use crate::logfile::semantics;
use crate::logfile::semantics::FileOperation;
use crate::logfile::{LogOp, LogRecord};

verus! {

/// The recovery disposition of a reconstructed [`Transaction`].
#[derive(Debug, Clone, Copy, PartialEq, Eq, Structural)]
pub enum TransactionState {
    /// A commit or forget record sealed the transaction.
    Committed,
    /// A compensation record rolled the transaction back without a commit.
    Aborted,
    /// No commit / forget / compensation record bounds the transaction within the
    /// recovered log window.
    Incomplete,
}

/// A group of `$LogFile` LFS records that share one `transaction_id`: the atomic unit
/// (one user/OS action) NTFS commits or rolls back as a whole.
///
/// `records` holds **indices into the slice passed to [`reconstruct_transactions`]**, in
/// ascending LSN order (the order NTFS would replay them).
#[derive(Debug, Clone, PartialEq, Eq)]
pub struct Transaction {
    /// The shared `transaction_id` (LFS header offset `0x24`).
    pub transaction_id: u32,
    /// Indices into the source record slice, ascending by LSN.
    pub records: Vec<usize>,
    /// Each member record's `this_lsn`, ascending: the transaction's LSN set.
    pub lsns: Vec<u64>,
    /// Per-record file-operation classification, parallel to `records`.
    pub operations: Vec<FileOperation>,
    /// Recovery disposition derived from the control opcodes present.
    pub state: TransactionState,
}

/// Whether record `a` is replayed before record `b`: by LSN, and by position where the
/// LSNs are the same.
pub open spec fn before(log: Seq<LogRecord>, a: int, b: int) -> bool {
    log[a].this_lsn < log[b].this_lsn || (log[a].this_lsn == log[b].this_lsn && a < b)
}

/// Whether `op` seals a transaction.
pub open spec fn seals(op: LogOp) -> bool {
    op is CommitTransaction || op is ForgetTransaction
}

/// Whether a record seals its transaction, on either side of its pair.
pub open spec fn commits(r: LogRecord) -> bool {
    seals(r.redo_op) || seals(r.undo_op)
}

/// Whether a record compensates, on either side of its pair.
pub open spec fn compensates(r: LogRecord) -> bool {
    r.redo_op is CompensationLogRecord || r.undo_op is CompensationLogRecord
}

/// The disposition of the transaction that the given records make up: a commit overrides
/// a compensation.
pub open spec fn state_of(log: Seq<LogRecord>, members: Seq<usize>) -> TransactionState {
    if exists|k: int| 0 <= k < members.len() && commits(log[#[trigger] members[k] as int]) {
        TransactionState::Committed
    } else if exists|k: int|
        0 <= k < members.len() && compensates(log[#[trigger] members[k] as int]) {
        TransactionState::Aborted
    } else {
        TransactionState::Incomplete
    }
}

/// Whether the members are records of one transaction, in replay order.
pub open spec fn is_group(log: Seq<LogRecord>, id: u32, members: Seq<usize>) -> bool {
    &&& members.len() > 0
    &&& forall|k: int|
        0 <= k < members.len() ==> (#[trigger] members[k]) < log.len()
            && log[members[k] as int].transaction_id == id
    &&& forall|j: int, k: int|
        0 <= j < k < members.len() ==> before(
            log,
            #[trigger] members[j] as int,
            #[trigger] members[k] as int,
        )
}

/// Whether a transaction is what its records say.
pub open spec fn describes(log: Seq<LogRecord>, t: Transaction) -> bool {
    &&& is_group(log, t.transaction_id, t.records@)
    &&& t.lsns@ == t.records@.map_values(|i: usize| log[i as int].this_lsn)
    &&& t.operations@ == t.records@.map_values(
        |i: usize| semantics::operation(log[i as int].redo_op, log[i as int].undo_op),
    )
    &&& t.state == state_of(log, t.records@)
}

/// Whether record `i` stands in one of the transactions.
pub open spec fn is_placed(list: Seq<Transaction>, i: int) -> bool {
    exists|t: int| 0 <= t < list.len() && (#[trigger] list[t]).records@.contains(i as usize)
}

/// Whether `list` is the transactions of `log`: each as its records say, one per
/// transaction id, every record in one of them, and in the order of their first records.
pub open spec fn reconstructs(log: Seq<LogRecord>, list: Seq<Transaction>) -> bool {
    &&& forall|t: int| 0 <= t < list.len() ==> describes(log, #[trigger] list[t])
    &&& forall|s: int, t: int|
        0 <= s < t < list.len() ==> (#[trigger] list[s]).transaction_id != (
        #[trigger] list[t]).transaction_id && before(
            log,
            list[s].records@[0] as int,
            list[t].records@[0] as int,
        )
    &&& forall|i: int| 0 <= i < log.len() ==> #[trigger] is_placed(list, i)
}

/// Whether the first `n` records stand in `order`, each once, in replay order.
spec fn is_order(log: Seq<LogRecord>, order: Seq<usize>, n: int) -> bool {
    &&& order.len() == n
    &&& forall|k: int| 0 <= k < order.len() ==> (#[trigger] order[k]) < n
    &&& forall|j: int, k: int|
        0 <= j < k < order.len() ==> before(
            log,
            #[trigger] order[j] as int,
            #[trigger] order[k] as int,
        )
    &&& forall|i: int| 0 <= i < n ==> #[trigger] order.contains(i as usize)
}

/// Sorts the record indices into replay order.
fn replay_order(log: &[LogRecord]) -> (r: Vec<usize>)
    ensures
        is_order(log@, r@, log@.len() as int),
{
    let mut order: Vec<usize> = Vec::new();
    let mut i: usize = 0;
    while i < log.len()
        invariant
            i <= log.len(),
            is_order(log@, order@, i as int),
        decreases log.len() - i,
    {
        let mut at: usize = order.len();
        while at > 0 && log[order[at - 1]].this_lsn > log[i].this_lsn
            invariant
                i < log.len(),
                at <= order.len(),
                is_order(log@, order@, i as int),
                forall|k: int|
                    at <= k < order.len() ==> before(log@, i as int, #[trigger] order@[k] as int),
            decreases at,
        {
            at -= 1;
        }
        let ghost sorted = order@;
        proof {
            assert forall|k: int| 0 <= k < at implies before(
                log@,
                #[trigger] sorted[k] as int,
                i as int,
            ) by {
                if k < at - 1 {
                    assert(before(log@, sorted[k] as int, sorted[at - 1] as int));
                }
            }
        }
        order.insert(at, i);
        proof {
            lemma_insert_keeps_order(log@, sorted, at as int, i);
        }
        i += 1;
    }
    order
}

proof fn lemma_insert_keeps_order(log: Seq<LogRecord>, sorted: Seq<usize>, at: int, i: usize)
    requires
        i < log.len(),
        is_order(log, sorted, i as int),
        0 <= at <= sorted.len(),
        forall|k: int| 0 <= k < at ==> before(log, #[trigger] sorted[k] as int, i as int),
        forall|k: int|
            at <= k < sorted.len() ==> before(log, i as int, #[trigger] sorted[k] as int),
    ensures
        is_order(log, sorted.insert(at, i), i + 1),
{
    let order = sorted.insert(at, i);
    assert forall|j: int, k: int| 0 <= j < k < order.len() implies before(
        log,
        #[trigger] order[j] as int,
        #[trigger] order[k] as int,
    ) by {
        let sj = if j < at {
            j
        } else {
            j - 1
        };
        let sk = if k < at {
            k
        } else {
            k - 1
        };
        if j == at {
            assert(order[k] == sorted[sk]);
        } else if k == at {
            assert(order[j] == sorted[sj]);
        } else {
            assert(order[j] == sorted[sj] && order[k] == sorted[sk]);
        }
    }
    assert forall|n: int| 0 <= n < i + 1 implies #[trigger] order.contains(n as usize) by {
        if n == i {
            assert(order[at] == i);
        } else {
            assert(sorted.contains(n as usize));
            let k = choose|k: int| 0 <= k < sorted.len() && sorted[k] == n as usize;
            if k < at {
                assert(order[k] == n as usize);
            } else {
                assert(order[k + 1] == n as usize);
            }
        }
    }
    assert forall|k: int| 0 <= k < order.len() implies (#[trigger] order[k]) < i + 1 by {
        if k < at {
            assert(order[k] == sorted[k]);
        } else if k > at {
            assert(order[k] == sorted[k - 1]);
        }
    }
}

/// The records of one transaction id, in replay order.
struct Group {
    id: u32,
    members: Vec<usize>,
}

/// Whether a record stands in one of the groups.
spec fn is_held(groups: Seq<Group>, index: usize) -> bool {
    exists|g: int| 0 <= g < groups.len() && (#[trigger] groups[g]).members@.contains(index)
}

/// Whether `groups` holds the first `k` records of `order`, one group per transaction id.
spec fn groups_hold(log: Seq<LogRecord>, order: Seq<usize>, k: int, groups: Seq<Group>) -> bool {
    &&& forall|g: int|
        0 <= g < groups.len() ==> is_group(
            log,
            (#[trigger] groups[g]).id,
            groups[g].members@,
        )
    &&& forall|g: int, m: int|
        0 <= g < groups.len() && 0 <= m < groups[g].members@.len() ==> order.take(k).contains(
            #[trigger] groups[g].members@[m],
        )
    &&& forall|s: int, t: int|
        0 <= s < t < groups.len() ==> (#[trigger] groups[s]).id != (#[trigger] groups[t]).id
            && before(log, groups[s].members@[0] as int, groups[t].members@[0] as int)
    &&& forall|j: int| 0 <= j < k ==> #[trigger] is_held(groups, order[j])
}

proof fn lemma_groups_extend(
    log: Seq<LogRecord>,
    order: Seq<usize>,
    k: int,
    groups: Seq<Group>,
    at: int,
    after: Seq<Group>,
)
    requires
        is_order(log, order, log.len() as int),
        0 <= k < order.len(),
        groups_hold(log, order, k, groups),
        0 <= at < groups.len(),
        groups[at].id == log[order[k] as int].transaction_id,
        after.len() == groups.len(),
        forall|g: int| 0 <= g < groups.len() && g != at ==> #[trigger] after[g] == groups[g],
        after[at].id == groups[at].id,
        after[at].members@ == groups[at].members@.push(order[k]),
    ensures
        groups_hold(log, order, k + 1, after),
{
    let x = order[k];
    assert forall|g: int, m: int|
        0 <= g < groups.len() && 0 <= m < groups[g].members@.len() implies before(
        log,
        #[trigger] groups[g].members@[m] as int,
        x as int,
    ) by {
        let j = choose|j: int| 0 <= j < k && order.take(k)[j] == groups[g].members@[m];
        assert(order[j] == groups[g].members@[m]);
        assert(before(log, order[j] as int, order[k] as int));
    }
    assert forall|g: int| 0 <= g < after.len() implies is_group(
        log,
        (#[trigger] after[g]).id,
        after[g].members@,
    ) by {
        assert(is_group(log, groups[g].id, groups[g].members@));
        if g == at {
            let members = groups[g].members@;
            assert forall|p: int, q: int| 0 <= p < q < after[g].members@.len() implies before(
                log,
                #[trigger] after[g].members@[p] as int,
                #[trigger] after[g].members@[q] as int,
            ) by {
                assert(after[g].members@[p] == members[p]);
                if q == members.len() {
                    assert(before(log, groups[g].members@[p] as int, x as int));
                } else {
                    assert(after[g].members@[q] == members[q]);
                }
            }
        }
    }
    assert forall|g: int, m: int|
        0 <= g < after.len() && 0 <= m < after[g].members@.len() implies order.take(k + 1).contains(
        #[trigger] after[g].members@[m],
    ) by {
        if g == at && m == groups[at].members@.len() {
            assert(order.take(k + 1)[k] == x);
        } else {
            assert(after[g].members@[m] == groups[g].members@[m]);
            assert(order.take(k).contains(groups[g].members@[m]));
            let j = choose|j: int| 0 <= j < k && order.take(k)[j] == groups[g].members@[m];
            assert(order.take(k + 1)[j] == after[g].members@[m]);
        }
    }
    assert forall|s: int, t: int| 0 <= s < t < after.len() implies (#[trigger] after[s]).id != (
    #[trigger] after[t]).id && before(
        log,
        after[s].members@[0] as int,
        after[t].members@[0] as int,
    ) by {
        assert(groups[s].id != groups[t].id);
        assert(is_group(log, groups[s].id, groups[s].members@));
        assert(is_group(log, groups[t].id, groups[t].members@));
        assert(after[s].members@[0] == groups[s].members@[0]);
        assert(after[t].members@[0] == groups[t].members@[0]);
    }
    assert forall|j: int| 0 <= j < k + 1 implies #[trigger] is_held(after, order[j]) by {
        if j == k {
            assert(after[at].members@[groups[at].members@.len() as int] == x);
            assert(after[at].members@.contains(order[j]));
        } else {
            assert(is_held(groups, order[j]));
            let g = choose|g: int|
                0 <= g < groups.len() && (#[trigger] groups[g]).members@.contains(order[j]);
            let m = choose|m: int|
                0 <= m < groups[g].members@.len() && groups[g].members@[m] == order[j];
            assert(after[g].members@[m] == order[j]);
            assert(after[g].members@.contains(order[j]));
        }
    }
}

proof fn lemma_groups_grow(
    log: Seq<LogRecord>,
    order: Seq<usize>,
    k: int,
    groups: Seq<Group>,
    fresh: Group,
)
    requires
        is_order(log, order, log.len() as int),
        0 <= k < order.len(),
        groups_hold(log, order, k, groups),
        forall|g: int|
            0 <= g < groups.len() ==> (#[trigger] groups[g]).id
                != log[order[k] as int].transaction_id,
        fresh.id == log[order[k] as int].transaction_id,
        fresh.members@ == seq![order[k]],
    ensures
        groups_hold(log, order, k + 1, groups.push(fresh)),
{
    let x = order[k];
    let after = groups.push(fresh);
    assert forall|g: int| 0 <= g < after.len() implies is_group(
        log,
        (#[trigger] after[g]).id,
        after[g].members@,
    ) by {
        if g < groups.len() {
            assert(is_group(log, groups[g].id, groups[g].members@));
        }
    }
    assert forall|g: int, m: int|
        0 <= g < after.len() && 0 <= m < after[g].members@.len() implies order.take(k + 1).contains(
        #[trigger] after[g].members@[m],
    ) by {
        if g == groups.len() {
            assert(order.take(k + 1)[k] == x);
        } else {
            assert(order.take(k).contains(groups[g].members@[m]));
            let j = choose|j: int| 0 <= j < k && order.take(k)[j] == groups[g].members@[m];
            assert(order.take(k + 1)[j] == after[g].members@[m]);
        }
    }
    assert forall|s: int, t: int| 0 <= s < t < after.len() implies (#[trigger] after[s]).id != (
    #[trigger] after[t]).id && before(
        log,
        after[s].members@[0] as int,
        after[t].members@[0] as int,
    ) by {
        if t == groups.len() {
            assert(is_group(log, groups[s].id, groups[s].members@));
            assert(order.take(k).contains(groups[s].members@[0]));
            let j = choose|j: int| 0 <= j < k && order.take(k)[j] == groups[s].members@[0];
            assert(order[j] == groups[s].members@[0]);
            assert(before(log, order[j] as int, order[k] as int));
        } else {
            assert(groups[s].id != groups[t].id);
        }
    }
    assert forall|j: int| 0 <= j < k + 1 implies #[trigger] is_held(after, order[j]) by {
        if j == k {
            assert(after[groups.len() as int].members@[0] == x);
            assert(after[groups.len() as int].members@.contains(order[j]));
        } else {
            assert(is_held(groups, order[j]));
            let g = choose|g: int|
                0 <= g < groups.len() && (#[trigger] groups[g]).members@.contains(order[j]);
            assert(after[g].members@.contains(order[j]));
        }
    }
}

/// Groups the records by transaction id.
fn group_records(log: &[LogRecord], order: &Vec<usize>) -> (r: Vec<Group>)
    requires
        is_order(log@, order@, log@.len() as int),
    ensures
        groups_hold(log@, order@, log@.len() as int, r@),
{
    let mut groups: Vec<Group> = Vec::new();
    let mut k: usize = 0;
    while k < order.len()
        invariant
            k <= order.len(),
            is_order(log@, order@, log@.len() as int),
            groups_hold(log@, order@, k as int, groups@),
        decreases order.len() - k,
    {
        let index: usize = order[k];
        let id: u32 = log[index].transaction_id;
        let mut at: usize = 0;
        while at < groups.len() && groups[at].id != id
            invariant
                at <= groups.len(),
                forall|g: int| 0 <= g < at ==> (#[trigger] groups@[g]).id != id,
            decreases groups.len() - at,
        {
            at += 1;
        }
        let ghost held = groups@;
        if at < groups.len() {
            groups[at].members.push(index);
            proof {
                lemma_groups_extend(log@, order@, k as int, held, at as int, groups@);
            }
        } else {
            let mut members: Vec<usize> = Vec::new();
            members.push(index);
            let fresh = Group { id, members };
            proof {
                assert(members@ =~= seq![order@[k as int]]);
                lemma_groups_grow(log@, order@, k as int, held, fresh);
            }
            groups.push(fresh);
        }
        k += 1;
    }
    groups
}

/// Describes the transaction that a group of records makes up.
fn describe(log: &[LogRecord], group: Group) -> (r: Transaction)
    requires
        is_group(log@, group.id, group.members@),
    ensures
        describes(log@, r),
        r.transaction_id == group.id,
        r.records@ == group.members@,
{
    let members = group.members;
    let mut lsns: Vec<u64> = Vec::new();
    let mut operations: Vec<FileOperation> = Vec::new();
    let mut committed = false;
    let mut compensated = false;
    let mut k: usize = 0;
    while k < members.len()
        invariant
            k <= members.len(),
            is_group(log@, group.id, members@),
            lsns@.len() == k,
            operations@.len() == k,
            forall|j: int| 0 <= j < k ==> #[trigger] lsns@[j] == log@[members@[j] as int].this_lsn,
            forall|j: int|
                0 <= j < k ==> #[trigger] operations@[j] == semantics::operation(
                    log@[members@[j] as int].redo_op,
                    log@[members@[j] as int].undo_op,
                ),
            committed <==> exists|j: int|
                0 <= j < k && commits(log@[#[trigger] members@[j] as int]),
            compensated <==> exists|j: int|
                0 <= j < k && compensates(log@[#[trigger] members@[j] as int]),
        decreases members.len() - k,
    {
        let rec = &log[members[k]];
        lsns.push(rec.this_lsn);
        operations.push(semantics::classify(rec.redo_op, rec.undo_op));
        if is_sealing(rec.redo_op) || is_sealing(rec.undo_op) {
            assert(commits(log@[members@[k as int] as int]));
            committed = true;
        }
        if is_compensation(rec.redo_op) || is_compensation(rec.undo_op) {
            assert(compensates(log@[members@[k as int] as int]));
            compensated = true;
        }
        k += 1;
    }
    let state = if committed {
        TransactionState::Committed
    } else if compensated {
        TransactionState::Aborted
    } else {
        TransactionState::Incomplete
    };
    assert(lsns@ =~= members@.map_values(|i: usize| log@[i as int].this_lsn));
    assert(operations@ =~= members@.map_values(
        |i: usize| semantics::operation(log@[i as int].redo_op, log@[i as int].undo_op),
    ));
    Transaction { transaction_id: group.id, records: members, lsns, operations, state }
}

/// Whether `op` seals a transaction.
fn is_sealing(op: LogOp) -> (r: bool)
    ensures
        r == seals(op),
{
    match op {
        LogOp::CommitTransaction | LogOp::ForgetTransaction => true,
        _ => false,
    }
}

/// Whether `op` is a compensation record.
fn is_compensation(op: LogOp) -> (r: bool)
    ensures
        r == (op is CompensationLogRecord),
{
    match op {
        LogOp::CompensationLogRecord => true,
        _ => false,
    }
}

/// Groups decoded LFS [`LogRecord`]s into [`Transaction`]s by `transaction_id`.
///
/// Each transaction's records are sorted ascending by `this_lsn` (replay order), and a
/// [`TransactionState`] is derived from the commit / forget / compensation opcodes among
/// its records. Returned transactions are ordered by the lowest LSN they contain, so the
/// output reads in log order. Every input record lands in exactly one transaction: none
/// is dropped, including transaction-control records and records whose opcode is
/// [`LogOp::Unknown`].
#[must_use]
pub fn reconstruct_transactions(records: &[LogRecord]) -> (r: Vec<Transaction>)
    ensures
        reconstructs(records@, r@),
{
    let order = replay_order(records);
    let groups = group_records(records, &order);
    let ghost held = groups@;
    let mut list: Vec<Transaction> = Vec::new();
    for group in it: groups
        invariant
            held == it.seq(),
            groups_hold(records@, order@, records@.len() as int, held),
            list@.len() == it.index(),
            forall|t: int|
                0 <= t < list@.len() ==> describes(records@, #[trigger] list@[t])
                    && list@[t].transaction_id == held[t].id && list@[t].records@
                    == held[t].members@,
    {
        assert(is_group(records@, held[it.index() as int].id, held[it.index() as int].members@));
        list.push(describe(records, group));
    }
    proof {
        let log = records@;
        assert forall|s: int, t: int| 0 <= s < t < list@.len() implies (#[trigger] list@[s]).transaction_id
            != (#[trigger] list@[t]).transaction_id && before(
            log,
            list@[s].records@[0] as int,
            list@[t].records@[0] as int,
        ) by {
            assert(held[s].id != held[t].id);
        }
        assert forall|i: int| 0 <= i < log.len() implies #[trigger] is_placed(list@, i) by {
            assert(order@.contains(i as usize));
            let j = choose|j: int| 0 <= j < order@.len() && order@[j] == i as usize;
            assert(is_held(held, order@[j]));
            let g = choose|g: int|
                0 <= g < held.len() && (#[trigger] held[g]).members@.contains(order@[j]);
            assert(list@[g].records@.contains(i as usize));
        }
    }
    list
}

/// Every record stands in exactly one transaction, and there only once: none is dropped
/// and none is counted twice.
pub proof fn law_every_record_is_in_exactly_one_transaction(
    log: Seq<LogRecord>,
    list: Seq<Transaction>,
    i: int,
)
    requires
        reconstructs(log, list),
        0 <= i < log.len(),
        log.len() <= usize::MAX,
    ensures
        exists|t: int, k: int|
            0 <= t < list.len() && 0 <= k < list[t].records@.len() && #[trigger] list[t].records@[k]
                == i,
        forall|s: int, j: int, t: int, k: int|
            0 <= s < list.len() && 0 <= j < list[s].records@.len() && 0 <= t < list.len() && 0 <= k
                < list[t].records@.len() && #[trigger] list[s].records@[j] == i
                && #[trigger] list[t].records@[k] == i ==> s == t && j == k,
{
    assert(is_placed(list, i));
    let t = choose|t: int|
        0 <= t < list.len() && (#[trigger] list[t]).records@.contains(i as usize);
    let k = choose|k: int| 0 <= k < list[t].records@.len() && list[t].records@[k] == i as usize;
    assert(list[t].records@[k] == i);
    assert forall|s: int, j: int, t: int, k: int|
        0 <= s < list.len() && 0 <= j < list[s].records@.len() && 0 <= t < list.len() && 0 <= k
            < list[t].records@.len() && #[trigger] list[s].records@[j] == i
            && #[trigger] list[t].records@[k] == i implies s == t && j == k by {
        assert(describes(log, list[s]) && describes(log, list[t]));
        assert(list[s].transaction_id == log[i].transaction_id);
        assert(list[t].transaction_id == log[i].transaction_id);
        if s < t {
            assert(list[s].transaction_id != list[t].transaction_id);
        } else if t < s {
            assert(list[t].transaction_id != list[s].transaction_id);
        } else if j < k {
            assert(before(log, list[t].records@[j] as int, list[t].records@[k] as int));
        } else if k < j {
            assert(before(log, list[t].records@[k] as int, list[t].records@[j] as int));
        }
    }
}

/// A commit or forget record anywhere in a transaction makes it committed, whatever else
/// is there.
pub proof fn law_a_commit_decides(log: Seq<LogRecord>, list: Seq<Transaction>, t: int, k: int)
    requires
        reconstructs(log, list),
        0 <= t < list.len(),
        0 <= k < list[t].records@.len(),
        commits(log[list[t].records@[k] as int]),
    ensures
        list[t].state is Committed,
{
    assert(describes(log, list[t]));
    assert(commits(log[list[t].records@[k] as int]));
}

/// Whether a record carries `op` on either side of its pair.
pub open spec fn carries(r: LogRecord, op: LogOp) -> bool {
    r.redo_op == op || r.undo_op == op
}

/// A transaction is committed when one of its records carries a commit or a forget, aborted
/// when none does but one carries a compensation, and incomplete otherwise.
pub proof fn law_control_records_decide(log: Seq<LogRecord>, list: Seq<Transaction>, t: int)
    requires
        reconstructs(log, list),
        0 <= t < list.len(),
    ensures
        ({
            let members = list[t].records@;
            let sealed = exists|k: int|
                0 <= k < members.len() && (carries(
                    log[#[trigger] members[k] as int],
                    LogOp::CommitTransaction,
                ) || carries(log[members[k] as int], LogOp::ForgetTransaction));
            let undone = exists|k: int|
                0 <= k < members.len() && carries(
                    log[#[trigger] members[k] as int],
                    LogOp::CompensationLogRecord,
                );
            &&& list[t].state is Committed <==> sealed
            &&& list[t].state is Aborted <==> undone && !sealed
            &&& list[t].state is Incomplete <==> !undone && !sealed
        }),
{
    assert(describes(log, list[t]));
    let members = list[t].records@;
    assert forall|k: int| 0 <= k < members.len() implies (commits(
        log[#[trigger] members[k] as int],
    ) <==> carries(log[members[k] as int], LogOp::CommitTransaction) || carries(
        log[members[k] as int],
        LogOp::ForgetTransaction,
    )) by {}
    assert forall|k: int| 0 <= k < members.len() implies (compensates(
        log[#[trigger] members[k] as int],
    ) <==> carries(log[members[k] as int], LogOp::CompensationLogRecord)) by {}
}

/// Two records stand in the same transaction exactly when they carry the same id, which is
/// the transaction's.
pub proof fn law_ids_group_the_records(
    log: Seq<LogRecord>,
    list: Seq<Transaction>,
    s: int,
    j: int,
    t: int,
    k: int,
)
    requires
        reconstructs(log, list),
        0 <= s < list.len(),
        0 <= j < list[s].records@.len(),
        0 <= t < list.len(),
        0 <= k < list[t].records@.len(),
    ensures
        log[list[s].records@[j] as int].transaction_id == list[s].transaction_id,
        s == t <==> log[list[s].records@[j] as int].transaction_id
            == log[list[t].records@[k] as int].transaction_id,
{
    assert(describes(log, list[s]) && describes(log, list[t]));
    assert(log[list[s].records@[j] as int].transaction_id == list[s].transaction_id);
    assert(log[list[t].records@[k] as int].transaction_id == list[t].transaction_id);
    if s < t {
        assert(list[s].transaction_id != list[t].transaction_id);
    } else if t < s {
        assert(list[t].transaction_id != list[s].transaction_id);
    }
}

/// A transaction lists its records in replay order, lowest LSN first, with the LSN and the
/// operation of each beside it; and the transactions come in the order of their lowest
/// LSNs.
pub proof fn law_transactions_read_in_replay_order(
    log: Seq<LogRecord>,
    list: Seq<Transaction>,
    s: int,
    t: int,
)
    requires
        reconstructs(log, list),
        0 <= s <= t < list.len(),
    ensures
        list[t].lsns@.len() == list[t].records@.len(),
        list[t].operations@.len() == list[t].records@.len(),
        forall|k: int|
            0 <= k < list[t].records@.len() ==> #[trigger] list[t].lsns@[k]
                == log[list[t].records@[k] as int].this_lsn,
        forall|k: int|
            0 <= k < list[t].records@.len() ==> #[trigger] list[t].operations@[k]
                == semantics::operation(
                log[list[t].records@[k] as int].redo_op,
                log[list[t].records@[k] as int].undo_op,
            ),
        forall|j: int, k: int|
            0 <= j < k < list[t].lsns@.len() ==> #[trigger] list[t].lsns@[j]
                <= #[trigger] list[t].lsns@[k],
        list[s].lsns@[0] <= list[t].lsns@[0],
{
    assert(describes(log, list[s]) && describes(log, list[t]));
    assert forall|j: int, k: int| 0 <= j < k < list[t].lsns@.len() implies #[trigger] list[t].lsns@[j]
        <= #[trigger] list[t].lsns@[k] by {
        assert(before(log, list[t].records@[j] as int, list[t].records@[k] as int));
    }
    if s < t {
        assert(list[s].transaction_id != list[t].transaction_id);
        assert(before(log, list[s].records@[0] as int, list[t].records@[0] as int));
    }
}

} // verus!
