//! The watcher: follows the chain's reported height and events and hands the
//! resulting per-block account deltas to the store.
use crate::account::{has_key, insert_entry, key_index, Account, AccountId, AccountMap, BlockNumber};
use crate::storage::{delta_rows, AccountUpdate, StorageConnection};
use vstd::prelude::*;

verus! {

/// Control messages that the watcher accepts.
#[derive(Clone, Copy, Debug, PartialEq, Eq, Structural)]
pub enum WatcherRequest {
    /// Check the chain for a new height and new events.
    PollChainNode,
}

/// What the watcher asks of the chain gateway next.
#[derive(Clone, Copy, Debug, PartialEq, Eq, Structural)]
pub enum WatchAction {
    /// Ask for the chain's current height.
    QueryHeight,
}

/// One chain event: the data that an account has as of a block.
#[derive(Clone, Copy, Debug, PartialEq, Eq, Structural)]
pub struct ChainEvent {
    pub block_number: BlockNumber,
    pub account_id: AccountId,
    pub data: Account,
}

/// A failure to reach the chain (network, timeout, RPC); the next poll retries.
#[derive(Clone, Copy, Debug, PartialEq, Eq, Structural)]
pub enum GatewayError {
    Transient,
}

/// What the gateway reported for one poll: its current height and the events
/// of the blocks asked for, in the gateway's order.
pub struct ChainReport {
    pub height: BlockNumber,
    pub events: Vec<ChainEvent>,
}

/// How a poll ended.
#[derive(Clone, Copy, Debug, PartialEq, Eq, Structural)]
pub enum PollOutcome {
    /// Every block up to this height was handed to the store and applied.
    Synced(BlockNumber),
    /// The chain reported no block beyond the last processed one.
    UpToDate,
    /// The gateway failed; nothing changed.
    GatewayFailed,
    /// The events were out of block order or above the reported height;
    /// nothing changed.
    Malformed,
}

/// Events come in non-decreasing block order and none lies above `height`.
pub open spec fn events_ok(events: Seq<ChainEvent>, height: BlockNumber) -> bool {
    &&& forall|a: int, b: int|
        0 <= a < b < events.len() ==> (#[trigger] events[a]).block_number <= (#[trigger] events[b]).block_number
    &&& forall|a: int| 0 <= a < events.len() ==> (#[trigger] events[a]).block_number <= height
}

/// Consecutive events of one block grouped into that block's delta: for each
/// account the data of its last event in the block, in order of first event.
pub open spec fn batches(events: Seq<ChainEvent>) -> Seq<(BlockNumber, Seq<(AccountId, Account)>)>
    decreases events.len(),
{
    if events.len() == 0 {
        Seq::empty()
    } else {
        let prev = batches(events.drop_last());
        let e = events.last();
        if prev.len() > 0 && prev.last().0 == e.block_number {
            prev.update(
                prev.len() - 1,
                (e.block_number, insert_entry(prev.last().1, e.account_id, e.data)),
            )
        } else {
            prev.push((e.block_number, seq![(e.account_id, e.data)]))
        }
    }
}

/// The rows that recording the batches in order appends.
pub open spec fn batch_rows(bs: Seq<(BlockNumber, Seq<(AccountId, Account)>)>) -> Seq<AccountUpdate>
    decreases bs.len(),
{
    if bs.len() == 0 {
        Seq::empty()
    } else {
        batch_rows(bs.drop_last()) + delta_rows(bs.last().0, bs.last().1)
    }
}

/// The events of blocks above `floor`.
pub open spec fn events_above(events: Seq<ChainEvent>, floor: BlockNumber) -> Seq<ChainEvent> {
    events.filter(|e: ChainEvent| e.block_number > floor)
}

/// Whether a poll with this report leaves the watcher and the store as they are.
pub open spec fn poll_is_noop(last: BlockNumber, report: Result<ChainReport, GatewayError>) -> bool {
    match report {
        Err(_) => true,
        Ok(rep) => !events_ok(rep.events@, rep.height) || rep.height <= last,
    }
}

/// The last processed height after a poll with this report.
pub open spec fn next_height(last: BlockNumber, report: Result<ChainReport, GatewayError>) -> BlockNumber {
    match report {
        Ok(rep) if !poll_is_noop(last, report) => rep.height,
        _ => last,
    }
}

pub open spec fn max3(a: BlockNumber, b: BlockNumber, c: BlockNumber) -> BlockNumber {
    if a >= b && a >= c {
        a
    } else if b >= c {
        b
    } else {
        c
    }
}

/// Polling a second time with the same report changes nothing: after the
/// first poll the report is one that leaves watcher and store as they are.
pub proof fn lemma_repeat_poll_is_noop(last: BlockNumber, report: Result<ChainReport, GatewayError>)
    ensures
        poll_is_noop(next_height(last, report), report),
{
}

/// The last processed height never goes down, and after a poll that is not a
/// no-op it is the reported height, at or above every reported event.
pub proof fn lemma_height_monotone(last: BlockNumber, report: Result<ChainReport, GatewayError>)
    ensures
        next_height(last, report) >= last,
        !poll_is_noop(last, report) ==> (report matches Ok(rep) && forall|k: int|
            0 <= k < rep.events@.len() ==> (#[trigger] rep.events@[k]).block_number <= next_height(
                last,
                report,
            )),
{
}

/// Some row records account `a` under block `b`.
pub open spec fn has_row(rows: Seq<AccountUpdate>, a: AccountId, b: BlockNumber) -> bool {
    exists|r: int| #![trigger rows[r]] 0 <= r < rows.len() && rows[r].account_id == a && rows[r].block_number == b
}

proof fn lemma_insert_entry_keys(s: Seq<(AccountId, Account)>, k: AccountId, v: Account, q: AccountId)
    requires
        has_key(s, q) || q == k,
    ensures
        has_key(insert_entry(s, k, v), q),
{
    let t = insert_entry(s, k, v);
    if has_key(s, k) {
        let i = key_index(s, k);
        if q == k {
            assert(t[i].0 == k);
        } else {
            let j = key_index(s, q);
            assert(t[j].0 == q);
        }
    } else if q == k {
        assert(t[s.len() as int].0 == k);
    } else {
        let j = key_index(s, q);
        assert(t[j].0 == q);
    }
}

/// Every row of the batches before the last keeps its place when the last
/// batch changes.
proof fn lemma_batch_rows_last(
    bs: Seq<(BlockNumber, Seq<(AccountId, Account)>)>,
    batch: (BlockNumber, Seq<(AccountId, Account)>),
)
    requires
        bs.len() > 0,
    ensures
        batch_rows(bs.update(bs.len() - 1, batch)) == batch_rows(bs.drop_last()) + delta_rows(
            batch.0,
            batch.1,
        ),
        batch_rows(bs) == batch_rows(bs.drop_last()) + delta_rows(bs.last().0, bs.last().1),
{
    assert(bs.update(bs.len() - 1, batch).drop_last() =~= bs.drop_last());
}

/// No event is skipped: for every reported event, the rows that its batches
/// record hold one for its account under its block.
pub proof fn lemma_every_event_recorded(events: Seq<ChainEvent>, k: int)
    requires
        0 <= k < events.len(),
    ensures
        has_row(batch_rows(batches(events)), events[k].account_id, events[k].block_number),
    decreases events.len(),
{
    let pre = events.drop_last();
    let e = events.last();
    let bs = batches(pre);
    let nb = batches(events);
    let q = events[k].account_id;
    let b = events[k].block_number;
    if bs.len() > 0 && bs.last().0 == e.block_number {
        let ins = insert_entry(bs.last().1, e.account_id, e.data);
        lemma_batch_rows_last(bs, (e.block_number, ins));
        let first = batch_rows(bs.drop_last());
        let rows = batch_rows(nb);
        assert(rows == first + delta_rows(e.block_number, ins));
        if k == events.len() - 1 {
            lemma_insert_entry_keys(bs.last().1, e.account_id, e.data, e.account_id);
            let t = key_index(ins, e.account_id);
            assert(rows[first.len() + t].account_id == q);
        } else {
            assert(events[k] == pre[k]);
            lemma_every_event_recorded(pre, k);
            let old_rows = batch_rows(bs);
            let r = choose|r: int| #![trigger old_rows[r]] 0 <= r < old_rows.len() && old_rows[r].account_id == q
                && old_rows[r].block_number == b;
            if r < first.len() {
                assert(rows[r] == old_rows[r]);
            } else {
                let entries = bs.last().1;
                let t = r - first.len();
                assert(old_rows[r] == delta_rows(bs.last().0, entries)[t]);
                assert(entries[t].0 == q);
                lemma_insert_entry_keys(entries, e.account_id, e.data, q);
                let t2 = key_index(ins, q);
                assert(rows[first.len() + t2].account_id == q);
            }
        }
    } else {
        assert(nb.drop_last() =~= bs);
        let rows = batch_rows(nb);
        assert(rows == batch_rows(bs) + delta_rows(e.block_number, seq![(e.account_id, e.data)]));
        if k == events.len() - 1 {
            assert(rows[batch_rows(bs).len() as int].account_id == q);
        } else {
            assert(events[k] == pre[k]);
            lemma_every_event_recorded(pre, k);
            let old_rows = batch_rows(bs);
            let r = choose|r: int| #![trigger old_rows[r]] 0 <= r < old_rows.len() && old_rows[r].account_id == q
                && old_rows[r].block_number == b;
            assert(rows[r] == old_rows[r]);
        }
    }
}

/// A poll records a row for every reported event above the heights already
/// processed, recorded or applied: it skips no block that had events.
pub proof fn lemma_no_event_above_floor_skipped(events: Seq<ChainEvent>, floor: BlockNumber, k: int)
    requires
        0 <= k < events.len(),
        events[k].block_number > floor,
    ensures
        has_row(
            batch_rows(batches(events_above(events, floor))),
            events[k].account_id,
            events[k].block_number,
        ),
{
    let f = events_above(events, floor);
    events.lemma_filter_contains(|e: ChainEvent| e.block_number > floor, k);
    assert(f.contains(events[k]));
    let m = choose|m: int| 0 <= m < f.len() && f[m] == events[k];
    lemma_every_event_recorded(f, m);
}

/// The watcher's own state: the highest block it has processed.
pub struct Watcher {
    last_processed_height: BlockNumber,
}

impl Watcher {
    pub closed spec fn last_height(&self) -> BlockNumber {
        self.last_processed_height
    }

    /// A watcher that has processed every block up to `start`.
    pub fn new(start: BlockNumber) -> (r: Watcher)
        ensures
            r.last_height() == start,
    {
        Watcher { last_processed_height: start }
    }

    /// The highest block processed so far.
    pub fn last_processed_height(&self) -> (r: BlockNumber)
        ensures
            r == self.last_height(),
    {
        self.last_processed_height
    }

    /// What to do for a request: a poll starts by asking for the chain height.
    pub fn handle(&self, request: WatcherRequest) -> (r: WatchAction)
        ensures
            r == (match request {
                WatcherRequest::PollChainNode => WatchAction::QueryHeight,
            }),
    {
        match request {
            WatcherRequest::PollChainNode => WatchAction::QueryHeight,
        }
    }

    /// The block range to ask events for, given the chain's height: from the
    /// block after the last processed one up to the height, if not empty.
    pub fn range_to_query(&self, chain_height: BlockNumber) -> (r: Option<(BlockNumber, BlockNumber)>)
        ensures
            r == (if chain_height > self.last_height() {
                Some(((self.last_height() + 1) as BlockNumber, chain_height))
            } else {
                None::<(BlockNumber, BlockNumber)>
            }),
    {
        if chain_height > self.last_processed_height {
            Some((self.last_processed_height + 1, chain_height))
        } else {
            None
        }
    }

    /// One poll, given what the gateway reported. A gateway failure, malformed
    /// events, or a height not above the last processed one change nothing.
    /// Otherwise the events of blocks above the last processed, recorded and
    /// applied heights are grouped per block and recorded block by block,
    /// everything up to the reported height is applied, and the last processed
    /// height becomes the reported height.
    pub fn sync_step(&mut self, store: &mut StorageConnection, report: Result<ChainReport, GatewayError>) -> (r:
        PollOutcome)
        requires
            old(store).wf(),
        ensures
            final(store).wf(),
            final(self).last_height() == next_height(old(self).last_height(), report),
            r == (match report {
                Err(_) => PollOutcome::GatewayFailed,
                Ok(rep) => if !events_ok(rep.events@, rep.height) {
                    PollOutcome::Malformed
                } else if rep.height <= old(self).last_height() {
                    PollOutcome::UpToDate
                } else {
                    PollOutcome::Synced(rep.height)
                },
            }),
            poll_is_noop(old(self).last_height(), report) ==> *final(self) == *old(self),
            poll_is_noop(old(self).last_height(), report) ==> *final(store) == *old(store),
            !poll_is_noop(old(self).last_height(), report) ==> (report matches Ok(rep) && {
                let bs = batches(
                    events_above(
                        rep.events@,
                        max3(
                            old(self).last_height(),
                            old(store).last_recorded(),
                            old(store).applied_height(),
                        ),
                    ),
                );
                &&& final(store).updates() == old(store).updates() + batch_rows(bs)
                &&& final(store).last_recorded() == if bs.len() == 0 {
                    old(store).last_recorded()
                } else {
                    bs.last().0
                }
                &&& final(store).applied_height() == if rep.height > old(store).applied_height() {
                    rep.height
                } else {
                    old(store).applied_height()
                }
                &&& final(store).operations() == old(store).operations()
            }),
    {
        let rep = match report {
            Err(_) => {
                return PollOutcome::GatewayFailed;
            },
            Ok(rep) => rep,
        };
        if !check_events(&rep.events, rep.height) {
            return PollOutcome::Malformed;
        }
        if rep.height <= self.last_processed_height {
            return PollOutcome::UpToDate;
        }
        let recorded = store.last_recorded_block();
        let applied = store.applied_block();
        let mut floor = self.last_processed_height;
        if recorded > floor {
            floor = recorded;
        }
        if applied > floor {
            floor = applied;
        }
        let ghost events = rep.events@;
        let ghost old_rows = store.updates();
        let ghost mut done: Seq<(BlockNumber, Seq<(AccountId, Account)>)> = Seq::empty();
        let mut cur = AccountMap::new();
        let mut cur_block: BlockNumber = 0;
        let mut has_cur = false;
        let n = rep.events.len();
        let mut i: usize = 0;
        while i < n
            invariant
                n == events.len(),
                i <= n,
                events == rep.events@,
                events_ok(events, rep.height),
                floor == max3(
                    old(self).last_height(),
                    old(store).last_recorded(),
                    old(store).applied_height(),
                ),
                store.wf(),
                cur.wf(),
                store.applied_height() == old(store).applied_height(),
                store.operations() == old(store).operations(),
                store.updates() == old_rows + batch_rows(done),
                store.last_recorded() == if done.len() == 0 {
                    old(store).last_recorded()
                } else {
                    done.last().0
                },
                batches(events_above(events.take(i as int), floor)) == if has_cur {
                    done.push((cur_block, cur.entries()))
                } else {
                    done
                },
                has_cur ==> i > 0 && cur_block == events[i - 1].block_number && cur_block > floor,
                done.len() > 0 ==> has_cur && done.last().0 < cur_block,
                self.last_processed_height == old(self).last_processed_height,
            decreases n - i,
        {
            let e = rep.events[i];
            proof {
                assert(events.take(i + 1).drop_last() =~= events.take(i as int));
                reveal(Seq::filter);
                if has_cur {
                    assert(events[i - 1].block_number <= events[i as int].block_number);
                }
            }
            if e.block_number > floor {
                let ghost f = events_above(events.take(i as int), floor);
                assert(events_above(events.take(i + 1), floor) == f.push(e));
                assert(f.push(e).drop_last() =~= f);
                if has_cur && e.block_number == cur_block {
                    let ghost before = cur.entries();
                    cur.insert(e.account_id, e.data);
                    assert(done.push((cur_block, before)).update(
                        done.len() as int,
                        (cur_block, insert_entry(before, e.account_id, e.data)),
                    ) =~= done.push((cur_block, cur.entries())));
                } else {
                    if has_cur {
                        let ghost batch = (cur_block, cur.entries());
                        let _ = store.commit_state_update(cur_block, &cur);
                        proof {
                            let d2 = done.push(batch);
                            assert(d2.drop_last() =~= done);
                            assert(old_rows + batch_rows(done) + delta_rows(batch.0, batch.1)
                                =~= old_rows + batch_rows(d2));
                            done = d2;
                        }
                    }
                    let mut fresh = AccountMap::new();
                    fresh.insert(e.account_id, e.data);
                    assert(fresh.entries() =~= seq![(e.account_id, e.data)]);
                    cur = fresh;
                    cur_block = e.block_number;
                    has_cur = true;
                }
            } else {
                assert(events_above(events.take(i + 1), floor) == events_above(
                    events.take(i as int),
                    floor,
                ));
            }
            i = i + 1;
        }
        proof {
            assert(events.take(n as int) =~= events);
        }
        if has_cur {
            let ghost batch = (cur_block, cur.entries());
            let _ = store.commit_state_update(cur_block, &cur);
            proof {
                let d2 = done.push(batch);
                assert(d2.drop_last() =~= done);
                assert(old_rows + batch_rows(done) + delta_rows(batch.0, batch.1) =~= old_rows
                    + batch_rows(d2));
                done = d2;
            }
        }
        let _ = store.apply_state_update(rep.height);
        self.last_processed_height = rep.height;
        PollOutcome::Synced(rep.height)
    }
}

/// Whether the events are in block order and none lies above the height.
fn check_events(events: &Vec<ChainEvent>, height: BlockNumber) -> (r: bool)
    ensures
        r == events_ok(events@, height),
{
    let n = events.len();
    let mut i: usize = 0;
    while i < n
        invariant
            n == events@.len(),
            i <= n,
            forall|a: int, b: int|
                0 <= a < b < i ==> (#[trigger] events@[a]).block_number <= (
                #[trigger] events@[b]).block_number,
            forall|a: int| 0 <= a < i ==> (#[trigger] events@[a]).block_number <= height,
        decreases n - i,
    {
        if events[i].block_number > height {
            return false;
        }
        if i > 0 && events[i - 1].block_number > events[i].block_number {
            return false;
        }
        proof {
            assert forall|a: int, b: int|
                0 <= a < b < i + 1 implies (#[trigger] events@[a]).block_number <= (
                #[trigger] events@[b]).block_number by {
                if b == i && a < i - 1 {
                    assert(events@[a].block_number <= events@[i - 1].block_number);
                }
            }
        }
        i = i + 1;
    }
    true
}

} // verus!
