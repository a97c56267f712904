//! The store of account updates, the verified account state materialised from
//! them, and the log of submitted operations.
use crate::account::{keys_unique, Account, AccountId, AccountMap, BlockNumber};
use serde_json::Value;
use vstd::prelude::*;

verus! {

/// serde_json's JSON value, the payload of an operation; carried through
/// unopened.
#[verifier::external_type_specification]
#[verifier::external_body]
pub struct ExValue(serde_json::Value);

/// Relies on the derived `Clone` of `serde_json::Value`: the copy is the same
/// JSON value.
#[verifier::external_body]
fn clone_value(v: &Value) -> (r: Value)
    ensures
        r == *v,
{
    v.clone()
}

/// Errors of the store.
#[derive(Clone, Copy, Debug, PartialEq, Eq, Structural)]
pub enum StoreError {
    /// Updates for this block were offered, but a block at or above it was
    /// already recorded or applied.
    OrderingViolation(BlockNumber),
    /// No identifier is left for a new operation.
    IdsExhausted,
}

/// One recorded change: the data of an account as of a block.
#[derive(Clone, Copy, Debug, PartialEq, Eq, Structural)]
pub struct AccountUpdate {
    pub account_id: AccountId,
    pub block_number: BlockNumber,
    pub data: Account,
}

/// The rows that recording `entries` under block `block` appends.
pub open spec fn delta_rows(block: BlockNumber, entries: Seq<(AccountId, Account)>) -> Seq<
    AccountUpdate,
> {
    entries.map_values(
        |e: (AccountId, Account)| AccountUpdate { account_id: e.0, block_number: block, data: e.1 },
    )
}

/// The account state obtained by folding, in order, every row whose block is
/// at most `height`: a later row of an account replaces an earlier one.
pub open spec fn fold_updates(rows: Seq<AccountUpdate>, height: BlockNumber) -> Map<
    AccountId,
    Account,
>
    decreases rows.len(),
{
    if rows.len() == 0 {
        Map::empty()
    } else {
        let prev = fold_updates(rows.drop_last(), height);
        let r = rows.last();
        if r.block_number <= height {
            prev.insert(r.account_id, r.data)
        } else {
            prev
        }
    }
}

/// Rows come in non-decreasing block order, and a block holds at most one row
/// per account.
pub open spec fn rows_ordered(rows: Seq<AccountUpdate>) -> bool {
    forall|i: int, j: int|
        0 <= i < j < rows.len() ==> (#[trigger] rows[i]).block_number <= (#[trigger] rows[j]).block_number
            && (rows[i].block_number == rows[j].block_number ==> rows[i].account_id
            != rows[j].account_id)
}

/// Rows whose blocks all lie above `height` leave the fold up to `height` as it was.
pub proof fn lemma_fold_ignores_higher(rows: Seq<AccountUpdate>, extra: Seq<AccountUpdate>, height: BlockNumber)
    requires
        forall|i: int| 0 <= i < extra.len() ==> (#[trigger] extra[i]).block_number > height,
    ensures
        fold_updates(rows + extra, height) == fold_updates(rows, height),
    decreases extra.len(),
{
    if extra.len() == 0 {
        assert(rows + extra =~= rows);
    } else {
        let shorter = extra.drop_last();
        assert((rows + extra).drop_last() =~= rows + shorter);
        assert(extra[extra.len() - 1].block_number > height);
        lemma_fold_ignores_higher(rows, shorter, height);
    }
}

/// The fold holds, for an account, the data of its last row at or below the
/// height.
pub proof fn lemma_fold_last_row(rows: Seq<AccountUpdate>, height: BlockNumber, j: int)
    requires
        0 <= j < rows.len(),
        rows[j].block_number <= height,
        forall|k: int|
            j < k < rows.len() && (#[trigger] rows[k]).account_id == rows[j].account_id
                ==> rows[k].block_number > height,
    ensures
        fold_updates(rows, height).contains_key(rows[j].account_id),
        fold_updates(rows, height)[rows[j].account_id] == rows[j].data,
    decreases rows.len(),
{
    if j < rows.len() - 1 {
        let shorter = rows.drop_last();
        assert forall|k: int|
            j < k < shorter.len() && (#[trigger] shorter[k]).account_id == shorter[j].account_id
                implies shorter[k].block_number > height by {
            assert(shorter[k] == rows[k]);
        }
        lemma_fold_last_row(shorter, height, j);
        let last = rows[rows.len() - 1];
        if last.block_number <= height {
            assert(last.account_id != rows[j].account_id);
        }
    }
}

/// Of two updates of one account under blocks `B1 < B2`, once updates are
/// applied up to `B2` the verified state of the account is the data recorded
/// at `B2`, never that of `B1`.
pub proof fn lemma_later_block_wins(s: &StorageConnection, i: int, j: int)
    requires
        s.wf(),
        0 <= i < s.updates().len(),
        0 <= j < s.updates().len(),
        s.updates()[i].account_id == s.updates()[j].account_id,
        s.updates()[i].block_number < s.updates()[j].block_number,
        s.applied_height() == s.updates()[j].block_number,
    ensures
        s.verified_state().contains_key(s.updates()[j].account_id),
        s.verified_state()[s.updates()[j].account_id] == s.updates()[j].data,
{
    let rows = s.updates();
    assert forall|k: int|
        j < k < rows.len() && (#[trigger] rows[k]).account_id == rows[j].account_id
            implies rows[k].block_number > s.applied_height() by {
        assert(rows[j].block_number <= rows[k].block_number);
    }
    lemma_fold_last_row(rows, s.applied_height(), j);
}

/// The nonce that a table of `(address, nonce)` pairs gives an address: that
/// of its first pair for the address.
pub open spec fn nonce_of(table: Seq<(Seq<char>, u32)>, addr: Seq<char>) -> Option<u32>
    decreases table.len(),
{
    if table.len() == 0 {
        None
    } else if table[0].0 == addr {
        Some(table[0].1)
    } else {
        nonce_of(table.drop_first(), addr)
    }
}

/// A table of `(address, nonce)` pairs as plain values.
pub open spec fn table_view(table: Seq<(String, u32)>) -> Seq<(Seq<char>, u32)> {
    table.map_values(|e: (String, u32)| (e.0@, e.1))
}

/// An operation is pending while the state reflects, for its address, no
/// nonce at or above its own.
pub open spec fn is_pending(op: OperationView, table: Seq<(Seq<char>, u32)>) -> bool {
    match nonce_of(table, op.addr) {
        None => true,
        Some(n) => n < op.nonce,
    }
}

/// An operation stays pending while the nonce reflected for its address is
/// below its own, and stops being pending once that nonce reaches it; with
/// no nonce reflected for its address it is pending.
pub proof fn lemma_pending_until_reflected(op: OperationView, table: Seq<(Seq<char>, u32)>)
    ensures
        nonce_of(table, op.addr) is None ==> is_pending(op, table),
        nonce_of(table, op.addr) matches Some(n) ==> (is_pending(op, table) <==> n < op.nonce),
{
}

/// The nonce that the table gives `addr`, if any.
fn nonce_lookup(table: &Vec<(String, u32)>, addr: &String) -> (r: Option<u32>)
    ensures
        r == nonce_of(table_view(table@), addr@),
{
    let ghost tv = table_view(table@);
    let n = table.len();
    assert(tv.subrange(0, n as int) =~= tv);
    let mut i: usize = 0;
    while i < n
        invariant
            n == table@.len(),
            tv == table_view(table@),
            i <= n,
            nonce_of(tv, addr@) == nonce_of(tv.subrange(i as int, n as int), addr@),
        decreases n - i,
    {
        let entry = &table[i];
        proof {
            assert(tv.subrange(i as int, n as int).drop_first() =~= tv.subrange(i + 1, n as int));
        }
        if entry.0 == *addr {
            return Some(entry.1);
        }
        i = i + 1;
    }
    None
}

/// Operations in non-decreasing nonce order.
pub open spec fn sorted_by_nonce(s: Seq<Operation>) -> bool {
    forall|a: int, b: int| 0 <= a < b < s.len() ==> (#[trigger] s[a]).nonce <= (#[trigger] s[b]).nonce
}

/// Inserts `op` after every operation of nonce at or below its own.
fn insert_by_nonce(res: &mut Vec<Operation>, op: Operation) -> (p: usize)
    requires
        sorted_by_nonce(old(res)@),
    ensures
        p <= old(res)@.len(),
        final(res)@ == old(res)@.insert(p as int, op),
        sorted_by_nonce(final(res)@),
{
    let m = res.len();
    let mut p: usize = 0;
    while p < m && res[p].nonce <= op.nonce
        invariant
            m == res@.len(),
            p <= m,
            forall|q: int| 0 <= q < p ==> (#[trigger] res@[q]).nonce <= op.nonce,
        decreases m - p,
    {
        p = p + 1;
    }
    let ghost before = res@;
    let ghost x = op;
    res.insert(p, op);
    proof {
        before.insert_ensures(p as int, x);
        assert forall|a: int, b: int|
            0 <= a < b < res@.len() implies (#[trigger] res@[a]).nonce <= (#[trigger] res@[b]).nonce by {
            if p < m {
                assert(before[p as int].nonce > x.nonce);
            }
            if a < p && b == p {
            } else if a < p && b > p {
                assert(res@[b] == before[b - 1]);
                assert(before[a].nonce <= before[b - 1].nonce || a == b - 1);
            } else if a == p && b > p {
                assert(res@[b] == before[b - 1]);
                assert(before[p as int].nonce <= before[b - 1].nonce || p == b - 1);
            } else if a > p {
                assert(res@[a] == before[a - 1] && res@[b] == before[b - 1]);
            }
        }
    }
    p
}

/// `res` holds, once each and by distinct identifiers, exactly the
/// operations among the first `i` of `ops` that satisfy `keep`.
#[verifier::opaque]
spec fn kept_so_far(
    res: Seq<Operation>,
    ops: Seq<OperationView>,
    keep: spec_fn(OperationView) -> bool,
    i: int,
) -> bool {
    &&& forall|a: int| #![trigger res[a]] 0 <= a < res.len() ==> drawn(res[a], ops, keep, i)
    &&& forall|j: int| #![trigger ops[j]] 0 <= j < i && keep(ops[j]) ==> held(res, ops[j])
    &&& forall|a: int| #![trigger res[a]] 0 <= a < res.len() ==> 1 <= res[a].id <= i
    &&& forall|a: int, b: int|
        #![trigger res[a], res[b]]
        0 <= a < res.len() && 0 <= b < res.len() && a != b ==> res[a].id != res[b].id
}

/// `x` is one of the first `i` operations of `ops` that satisfy `keep`.
spec fn drawn(x: Operation, ops: Seq<OperationView>, keep: spec_fn(OperationView) -> bool, i: int) -> bool {
    exists|j: int| #![trigger ops[j]] 0 <= j < i && keep(ops[j]) && x@ == ops[j]
}

/// `x` is one of the pending operations of `ops`.
pub open spec fn is_pending_op_of(x: Operation, ops: Seq<OperationView>, table: Seq<(Seq<char>, u32)>) -> bool {
    exists|j: int| #![trigger ops[j]] 0 <= j < ops.len() && is_pending(ops[j], table) && x@ == ops[j]
}

/// Some operation of `res` is `o`.
spec fn held(res: Seq<Operation>, o: OperationView) -> bool {
    exists|a: int| #![trigger res[a]] 0 <= a < res.len() && res[a]@ == o
}

proof fn lemma_kept_skip(
    res: Seq<Operation>,
    ops: Seq<OperationView>,
    keep: spec_fn(OperationView) -> bool,
    i: int,
)
    requires
        0 <= i < ops.len(),
        kept_so_far(res, ops, keep, i),
        !keep(ops[i]),
    ensures
        kept_so_far(res, ops, keep, i + 1),
{
    reveal(kept_so_far);
    assert forall|a: int| #![trigger res[a]] 0 <= a < res.len() implies drawn(res[a], ops, keep, i + 1) by {
        assert(drawn(res[a], ops, keep, i));
        let j = choose|j: int| #![trigger ops[j]] 0 <= j < i && keep(ops[j]) && res[a]@ == ops[j];
        assert(0 <= j < i + 1 && keep(ops[j]) && res[a]@ == ops[j]);
    }
    assert forall|j: int| #![trigger ops[j]] 0 <= j < i + 1 && keep(ops[j]) implies held(res, ops[j]) by {
        assert(j < i);
    }
}

proof fn lemma_kept_step(
    before: Seq<Operation>,
    p: int,
    x: Operation,
    ops: Seq<OperationView>,
    keep: spec_fn(OperationView) -> bool,
    i: int,
)
    requires
        0 <= i < ops.len(),
        0 <= p <= before.len(),
        kept_so_far(before, ops, keep, i),
        keep(ops[i]),
        x@ == ops[i],
        x.id == i + 1,
    ensures
        kept_so_far(before.insert(p, x), ops, keep, i + 1),
{
    reveal(kept_so_far);
    let res = before.insert(p, x);
    before.insert_ensures(p, x);
    assert forall|a: int| #![trigger res[a]] 0 <= a < res.len() implies drawn(res[a], ops, keep, i + 1) by {
        if a == p {
            assert(keep(ops[i]) && res[a]@ == ops[i]);
        } else {
            let b = if a < p {
                a
            } else {
                a - 1
            };
            assert(res[a] == before[b]);
            assert(drawn(before[b], ops, keep, i));
            let j = choose|j: int| #![trigger ops[j]] 0 <= j < i && keep(ops[j]) && before[b]@ == ops[j];
            assert(0 <= j < i + 1 && keep(ops[j]) && res[a]@ == ops[j]);
        }
    }
    assert forall|j: int| #![trigger ops[j]] 0 <= j < i + 1 && keep(ops[j]) implies held(res, ops[j]) by {
        if j == i {
            assert(res[p]@ == ops[j]);
        } else {
            assert(held(before, ops[j]));
            let a = choose|a: int| #![trigger before[a]] 0 <= a < before.len() && before[a]@ == ops[j];
            if a < p {
                assert(res[a] == before[a]);
            } else {
                assert(res[a + 1] == before[a]);
            }
        }
    }
    assert forall|a: int| #![trigger res[a]] 0 <= a < res.len() implies 1 <= res[a].id <= i + 1 by {
        if a < p {
            assert(res[a] == before[a]);
        } else if a > p {
            assert(res[a] == before[a - 1]);
        }
    }
    assert forall|a: int, b: int|
        #![trigger res[a], res[b]]
        0 <= a < res.len() && 0 <= b < res.len() && a != b implies res[a].id != res[b].id by {
        if a < p {
            assert(res[a] == before[a]);
        } else if a > p {
            assert(res[a] == before[a - 1]);
        }
        if b < p {
            assert(res[b] == before[b]);
        } else if b > p {
            assert(res[b] == before[b - 1]);
        }
    }
}

/// What a submitted operation is, as plain values.
pub struct OperationView {
    pub id: u64,
    pub data: Value,
    pub addr: Seq<char>,
    pub nonce: u32,
    pub created_at: u64,
}

/// A submitted operation: its payload, the address it comes from, its nonce
/// and when it was accepted (milliseconds since the Unix epoch).
pub struct Operation {
    pub id: u64,
    pub data: Value,
    pub addr: String,
    pub nonce: u32,
    pub created_at: u64,
}

impl View for Operation {
    type V = OperationView;

    open spec fn view(&self) -> OperationView {
        OperationView {
            id: self.id,
            data: self.data,
            addr: self.addr@,
            nonce: self.nonce,
            created_at: self.created_at,
        }
    }
}

impl Operation {
    /// A copy of the operation.
    pub fn duplicate(&self) -> (r: Operation)
        ensures
            r@ == self@,
    {
        Operation {
            id: self.id,
            data: clone_value(&self.data),
            addr: self.addr.clone(),
            nonce: self.nonce,
            created_at: self.created_at,
        }
    }
}

/// The store: recorded account updates, the last recorded block, the height
/// up to which updates were applied, the verified state, and the operations.
pub struct StorageConnection {
    updates: Vec<AccountUpdate>,
    last_recorded: BlockNumber,
    applied: BlockNumber,
    verified: AccountMap,
    operations: Vec<Operation>,
}

impl StorageConnection {
    /// Every recorded update, in the order of recording.
    pub closed spec fn updates(&self) -> Seq<AccountUpdate> {
        self.updates@
    }

    /// The highest block recorded so far (0 before any).
    pub closed spec fn last_recorded(&self) -> BlockNumber {
        self.last_recorded
    }

    /// The highest height passed to `apply_state_update` so far (0 before any).
    pub closed spec fn applied_height(&self) -> BlockNumber {
        self.applied
    }

    /// Every operation, in the order of commit.
    pub closed spec fn operations(&self) -> Seq<OperationView> {
        self.operations@.map_values(|o: Operation| o@)
    }

    /// The verified state: the fold of the updates up to the applied height.
    pub open spec fn verified_state(&self) -> Map<AccountId, Account> {
        fold_updates(self.updates(), self.applied_height())
    }

    /// Whether a block may be recorded next.
    pub open spec fn may_record(&self, block: BlockNumber) -> bool {
        block > self.last_recorded() && block > self.applied_height()
    }

    pub closed spec fn wf(&self) -> bool {
        &&& rows_ordered(self.updates@)
        &&& forall|i: int|
            0 <= i < self.updates@.len() ==> (#[trigger] self.updates@[i]).block_number
                <= self.last_recorded
        &&& self.verified.wf()
        &&& self.verified@ == fold_updates(self.updates@, self.applied)
        &&& forall|i: int|
            0 <= i < self.operations@.len() ==> (#[trigger] self.operations@[i]).id == i + 1
    }

    /// An empty store.
    pub fn new() -> (r: StorageConnection)
        ensures
            r.wf(),
            r.updates() == Seq::<AccountUpdate>::empty(),
            r.last_recorded() == 0,
            r.applied_height() == 0,
            r.operations() == Seq::<OperationView>::empty(),
    {
        let r = StorageConnection {
            updates: Vec::new(),
            last_recorded: 0,
            applied: 0,
            verified: AccountMap::new(),
            operations: Vec::new(),
        };
        assert(r.verified@ =~= fold_updates(r.updates@, 0));
        assert(r.operations() =~= Seq::<OperationView>::empty());
        r
    }

    /// Records one row per account of `accounts_updated` under `block_number`,
    /// all of them or none. A block at or below one already recorded or applied
    /// is refused and nothing changes.
    pub fn commit_state_update(&mut self, block_number: BlockNumber, accounts_updated: &AccountMap) -> (r:
        Result<(), StoreError>)
        requires
            old(self).wf(),
            accounts_updated.wf(),
        ensures
            final(self).wf(),
            r is Ok <==> old(self).may_record(block_number),
            r is Err ==> r == Err::<(), StoreError>(StoreError::OrderingViolation(block_number))
                && *final(self) == *old(self),
            r is Ok ==> final(self).updates() == old(self).updates() + delta_rows(
                block_number,
                accounts_updated.entries(),
            ),
            r is Ok ==> final(self).last_recorded() == block_number,
            final(self).applied_height() == old(self).applied_height(),
            final(self).verified_state() == old(self).verified_state(),
            final(self).operations() == old(self).operations(),
    {
        if block_number <= self.last_recorded || block_number <= self.applied {
            return Err(StoreError::OrderingViolation(block_number));
        }
        let ghost old_rows = self.updates@;
        let ghost entries = accounts_updated.entries();
        let n = accounts_updated.len();
        let mut i: usize = 0;
        while i < n
            invariant
                n == entries.len(),
                i <= n,
                keys_unique(entries),
                entries == accounts_updated.entries(),
                self.updates@ == old_rows + delta_rows(block_number, entries.take(i as int)),
                rows_ordered(old_rows),
                forall|j: int|
                    0 <= j < old_rows.len() ==> (#[trigger] old_rows[j]).block_number
                        <= self.last_recorded,
                block_number > self.last_recorded,
                block_number > self.applied,
                self.last_recorded == old(self).last_recorded,
                self.applied == old(self).applied,
                self.verified == old(self).verified,
                self.operations == old(self).operations,
            decreases n - i,
        {
            let (id, data) = accounts_updated.entry(i);
            self.updates.push(AccountUpdate { account_id: id, block_number, data });
            proof {
                assert(entries.take(i + 1) =~= entries.take(i as int).push((id, data)));
                assert(delta_rows(block_number, entries.take(i + 1)) =~= delta_rows(
                    block_number,
                    entries.take(i as int),
                ).push(AccountUpdate { account_id: id, block_number, data }));
            }
            i = i + 1;
        }
        let ghost added = delta_rows(block_number, entries);
        proof {
            assert(entries.take(n as int) =~= entries);
            let rows = self.updates@;
            assert forall|a: int, b: int| 0 <= a < b < rows.len() implies (#[trigger] rows[a]).block_number
                <= (#[trigger] rows[b]).block_number && (rows[a].block_number
                == rows[b].block_number ==> rows[a].account_id != rows[b].account_id) by {
                if b >= old_rows.len() {
                    assert(rows[b] == added[b - old_rows.len()]);
                    if a >= old_rows.len() {
                        assert(rows[a] == added[a - old_rows.len()]);
                    } else {
                        assert(rows[a] == old_rows[a]);
                    }
                } else {
                    assert(rows[a] == old_rows[a] && rows[b] == old_rows[b]);
                }
            }
            assert forall|a: int| 0 <= a < added.len() implies (#[trigger] added[a]).block_number
                > self.applied by {}
            lemma_fold_ignores_higher(old_rows, added, self.applied);
        }
        self.last_recorded = block_number;
        proof {
            let rows = self.updates@;
            assert forall|a: int| 0 <= a < rows.len() implies (#[trigger] rows[a]).block_number
                <= self.last_recorded by {
                if a >= old_rows.len() {
                    assert(rows[a] == added[a - old_rows.len()]);
                } else {
                    assert(rows[a] == old_rows[a]);
                }
            }
        }
        Ok(())
    }

    /// Folds every recorded update up to `block_number` into the verified
    /// state. The applied height never goes down: a height below it changes
    /// nothing.
    pub fn apply_state_update(&mut self, block_number: BlockNumber) -> (r: Result<(), StoreError>)
        requires
            old(self).wf(),
        ensures
            final(self).wf(),
            r is Ok,
            final(self).applied_height() == if block_number > old(self).applied_height() {
                block_number
            } else {
                old(self).applied_height()
            },
            final(self).updates() == old(self).updates(),
            final(self).last_recorded() == old(self).last_recorded(),
            final(self).operations() == old(self).operations(),
    {
        if block_number <= self.applied {
            return Ok(());
        }
        let n = self.updates.len();
        let mut m = AccountMap::new();
        let mut i: usize = 0;
        while i < n
            invariant
                n == self.updates@.len(),
                i <= n,
                m.wf(),
                m@ == fold_updates(self.updates@.take(i as int), block_number),
            decreases n - i,
        {
            let u = self.updates[i];
            proof {
                assert(self.updates@.take(i + 1).drop_last() =~= self.updates@.take(i as int));
            }
            if u.block_number <= block_number {
                m.insert(u.account_id, u.data);
            }
            i = i + 1;
        }
        proof {
            assert(self.updates@.take(n as int) =~= self.updates@);
        }
        self.verified = m;
        self.applied = block_number;
        Ok(())
    }

    /// The verified state: every update up to the applied height, folded.
    pub fn load_verified_state(&self) -> (r: AccountMap)
        requires
            self.wf(),
        ensures
            r.wf(),
            r@ == self.verified_state(),
    {
        self.verified.duplicate()
    }

    /// The highest block recorded so far (0 before any).
    pub fn last_recorded_block(&self) -> (r: BlockNumber)
        ensures
            r == self.last_recorded(),
    {
        self.last_recorded
    }

    /// The highest height applied so far (0 before any).
    pub fn applied_block(&self) -> (r: BlockNumber)
        ensures
            r == self.applied_height(),
    {
        self.applied
    }

    /// The recorded updates of account `id`, in the order of recording.
    pub fn account_updates(&self, id: AccountId) -> (r: Vec<AccountUpdate>)
        ensures
            r@ == self.updates().filter(|u: AccountUpdate| u.account_id == id),
    {
        let n = self.updates.len();
        let mut r: Vec<AccountUpdate> = Vec::new();
        let mut i: usize = 0;
        while i < n
            invariant
                n == self.updates@.len(),
                i <= n,
                r@ == self.updates@.take(i as int).filter(|u: AccountUpdate| u.account_id == id),
            decreases n - i,
        {
            let u = self.updates[i];
            proof {
                assert(self.updates@.take(i + 1).drop_last() =~= self.updates@.take(i as int));
                reveal(Seq::filter);
            }
            if u.account_id == id {
                r.push(u);
            }
            i = i + 1;
        }
        proof {
            assert(self.updates@.take(n as int) =~= self.updates@);
        }
        r
    }

    /// The operations still pending given the nonce that the state reflects
    /// per address, ascending by nonce (operations of equal nonce in the order
    /// of commit).
    pub fn load_pendings_ops(&self, current_nonces: &Vec<(String, u32)>) -> (r: Vec<Operation>)
        requires
            self.wf(),
        ensures
            forall|a: int, b: int| 0 <= a < b < r@.len() ==> (#[trigger] r@[a]).nonce <= (#[trigger] r@[b]).nonce,
            forall|a: int|
                0 <= a < r@.len() ==> is_pending_op_of(
                    #[trigger] r@[a],
                    self.operations(),
                    table_view(current_nonces@),
                ),
            forall|j: int|
                #![trigger self.operations()[j]]
                0 <= j < self.operations().len() && is_pending(
                    self.operations()[j],
                    table_view(current_nonces@),
                ) ==> exists|a: int| #![trigger r@[a]] 0 <= a < r@.len() && r@[a]@ == self.operations()[j],
            forall|a: int, b: int|
                0 <= a < r@.len() && 0 <= b < r@.len() && a != b ==> (#[trigger] r@[a]).id != (
                #[trigger] r@[b]).id,
    {
        let ghost tv = table_view(current_nonces@);
        let ghost ops = self.operations();
        let n = self.operations.len();
        let ghost keep = |o: OperationView| is_pending(o, tv);
        let mut res: Vec<Operation> = Vec::new();
        proof {
            reveal(kept_so_far);
        }
        let mut i: usize = 0;
        while i < n
            invariant
                n == self.operations@.len(),
                ops == self.operations(),
                tv == table_view(current_nonces@),
                self.wf(),
                i <= n,
                sorted_by_nonce(res@),
                keep == (|o: OperationView| is_pending(o, tv)),
                kept_so_far(res@, ops, keep, i as int),
            decreases n - i,
        {
            let op = &self.operations[i];
            assert(ops[i as int] == op@);
            let current = nonce_lookup(current_nonces, &op.addr);
            let pending = match current {
                None => true,
                Some(c) => c < op.nonce,
            };
            if pending {
                let ghost before = res@;
                let copy = op.duplicate();
                let ghost x = copy;
                let p = insert_by_nonce(&mut res, copy);
                proof {
                    lemma_kept_step(before, p as int, x, ops, keep, i as int);
                }
            } else {
                proof {
                    lemma_kept_skip(res@, ops, keep, i as int);
                }
            }
            i = i + 1;
        }
        proof {
            assert(kept_so_far(res@, ops, keep, n as int));
            reveal(kept_so_far);
            assert(ops.len() == n);
            assert forall|a: int, b: int|
                0 <= a < res@.len() && 0 <= b < res@.len() && a != b implies (#[trigger] res@[a]).id != (
                #[trigger] res@[b]).id by {}
            assert forall|a: int| 0 <= a < res@.len() implies is_pending_op_of(
                #[trigger] res@[a],
                self.operations(),
                table_view(current_nonces@),
            ) by {
                assert(drawn(res@[a], ops, keep, n as int));
                let j = choose|j: int| #![trigger ops[j]] 0 <= j < n && keep(ops[j]) && res@[a]@ == ops[j];
                assert(self.operations()[j] == ops[j]);
                assert(is_pending(self.operations()[j], table_view(current_nonces@)));
            }
            assert forall|j: int| #![trigger ops[j]] 0 <= j < ops.len() && is_pending(ops[j], tv) implies exists|a: int|
                #![trigger res@[a]]
                0 <= a < res@.len() && res@[a]@ == ops[j] by {
                assert(keep(ops[j]));
                assert(held(res@, ops[j]));
            }
        }
        res
    }

    /// Accepts an operation: it gets the next identifier (one more than the
    /// number of operations so far) and is appended to the log.
    pub fn commit_op(&mut self, data: Value, addr: String, nonce: u32, created_at: u64) -> (r:
        Result<Operation, StoreError>)
        requires
            old(self).wf(),
        ensures
            final(self).wf(),
            r is Ok <==> old(self).operations().len() < u64::MAX,
            r is Err ==> r == Err::<Operation, StoreError>(StoreError::IdsExhausted) && *final(self)
                == *old(self),
            r matches Ok(op) ==> op@ == (OperationView {
                id: (old(self).operations().len() + 1) as u64,
                data,
                addr: addr@,
                nonce,
                created_at,
            }),
            r matches Ok(op) ==> final(self).operations() == old(self).operations().push(op@),
            final(self).updates() == old(self).updates(),
            final(self).last_recorded() == old(self).last_recorded(),
            final(self).applied_height() == old(self).applied_height(),
    {
        let count = self.operations.len();
        if count as u64 >= u64::MAX {
            return Err(StoreError::IdsExhausted);
        }
        let op = Operation { id: count as u64 + 1, data, addr, nonce, created_at };
        let out = op.duplicate();
        let ghost before = self.operations@;
        self.operations.push(op);
        proof {
            assert(self.operations() =~= old(self).operations().push(out@)) by {
                assert(self.operations@ == before.push(op));
            }
        }
        Ok(out)
    }
}

} // verus!
