//! Accounts and maps from account identifiers to account data.
use vstd::prelude::*;

verus! {

/// Dense, non-negative identifier of an account.
pub type AccountId = u32;

/// Number of a finalized batch of state changes.
pub type BlockNumber = u32;

/// The data held for one account.
#[derive(Clone, Copy, Debug, PartialEq, Eq, Structural)]
pub struct Account {
    pub balance: u64,
    pub nonce: u32,
    pub pub_x: u64,
    pub pub_y: u64,
}

/// Whether some entry of `s` has key `k`.
pub open spec fn has_key(s: Seq<(AccountId, Account)>, k: AccountId) -> bool {
    exists|i: int| 0 <= i < s.len() && (#[trigger] s[i]).0 == k
}

/// No two entries of `s` share a key.
pub open spec fn keys_unique(s: Seq<(AccountId, Account)>) -> bool {
    forall|i: int, j: int|
        0 <= i < s.len() && 0 <= j < s.len() && i != j ==> (#[trigger] s[i]).0 != (#[trigger] s[j]).0
}

/// The position of an entry with key `k` (meaningful when `has_key(s, k)`).
pub open spec fn key_index(s: Seq<(AccountId, Account)>, k: AccountId) -> int {
    choose|i: int| 0 <= i < s.len() && (#[trigger] s[i]).0 == k
}

/// The entries after inserting `k -> v`: an existing entry is replaced in
/// place, a new key is appended.
pub open spec fn insert_entry(s: Seq<(AccountId, Account)>, k: AccountId, v: Account) -> Seq<
    (AccountId, Account),
> {
    if has_key(s, k) {
        s.update(key_index(s, k), (k, v))
    } else {
        s.push((k, v))
    }
}

/// The mapping that a sequence of entries stands for.
pub open spec fn entries_map(s: Seq<(AccountId, Account)>) -> Map<AccountId, Account> {
    Map::new(|k: AccountId| has_key(s, k), |k: AccountId| s[key_index(s, k)].1)
}

proof fn lemma_key_index(s: Seq<(AccountId, Account)>, i: int)
    requires
        keys_unique(s),
        0 <= i < s.len(),
    ensures
        has_key(s, s[i].0),
        key_index(s, s[i].0) == i,
{
    let k = s[i].0;
    assert(has_key(s, k));
    let j = key_index(s, k);
    assert(s[j].0 == k);
}

/// Inserting into unique entries keeps them unique and inserts into the map.
pub proof fn lemma_insert_entry(s: Seq<(AccountId, Account)>, k: AccountId, v: Account)
    requires
        keys_unique(s),
    ensures
        keys_unique(insert_entry(s, k, v)),
        entries_map(insert_entry(s, k, v)) == entries_map(s).insert(k, v),
{
    let t = insert_entry(s, k, v);
    if has_key(s, k) {
        let i = key_index(s, k);
        assert(s[i].0 == k);
        assert(keys_unique(t)) by {
            assert forall|a: int, b: int|
                0 <= a < t.len() && 0 <= b < t.len() && a != b implies (#[trigger] t[a]).0 != (
                #[trigger] t[b]).0 by {
                assert(s[a].0 == t[a].0);
                assert(s[b].0 == t[b].0);
            }
        }
        assert forall|q: AccountId| #[trigger] has_key(t, q) == has_key(s, q) by {
            if has_key(s, q) {
                let j = key_index(s, q);
                assert(t[j].0 == q);
            }
            if has_key(t, q) {
                let j = key_index(t, q);
                assert(s[j].0 == q);
            }
        }
        assert(entries_map(t) =~= entries_map(s).insert(k, v)) by {
            assert forall|q: AccountId| #[trigger] entries_map(t).contains_key(q) implies entries_map(
                t,
            )[q] == entries_map(s).insert(k, v)[q] by {
                let j = key_index(t, q);
                lemma_key_index(t, j);
                if q == k {
                    lemma_key_index(t, i);
                } else {
                    lemma_key_index(s, j);
                }
            }
        }
    } else {
        assert(keys_unique(t)) by {
            assert forall|a: int, b: int|
                0 <= a < t.len() && 0 <= b < t.len() && a != b implies (#[trigger] t[a]).0 != (
                #[trigger] t[b]).0 by {
                if a < s.len() && b < s.len() {
                    assert(s[a] == t[a] && s[b] == t[b]);
                } else if a < s.len() {
                    assert(s[a] == t[a]);
                } else {
                    assert(s[b] == t[b]);
                }
            }
        }
        assert forall|q: AccountId| #[trigger] has_key(t, q) == (has_key(s, q) || q == k) by {
            if has_key(s, q) {
                let j = key_index(s, q);
                assert(t[j].0 == q);
            }
            if q == k {
                assert(t[s.len() as int].0 == k);
            }
            if has_key(t, q) && q != k {
                let j = key_index(t, q);
                assert(s[j].0 == q);
            }
        }
        assert(entries_map(t) =~= entries_map(s).insert(k, v)) by {
            assert forall|q: AccountId| #[trigger] entries_map(t).contains_key(q) implies entries_map(
                t,
            )[q] == entries_map(s).insert(k, v)[q] by {
                let j = key_index(t, q);
                lemma_key_index(t, j);
                if q == k {
                    lemma_key_index(t, s.len() as int);
                } else {
                    lemma_key_index(s, j);
                }
            }
        }
    }
}

/// A mapping from account identifiers to account data, kept as a list of
/// entries with unique keys in order of first insertion.
pub struct AccountMap {
    entries: Vec<(AccountId, Account)>,
}

impl View for AccountMap {
    type V = Map<AccountId, Account>;

    open spec fn view(&self) -> Map<AccountId, Account> {
        entries_map(self.entries())
    }
}

impl AccountMap {
    /// The entries, in order of first insertion.
    pub closed spec fn entries(&self) -> Seq<(AccountId, Account)> {
        self.entries@
    }

    pub open spec fn wf(&self) -> bool {
        keys_unique(self.entries())
    }

    /// An empty map.
    pub fn new() -> (r: AccountMap)
        ensures
            r.wf(),
            r.entries() == Seq::<(AccountId, Account)>::empty(),
            r@ == Map::<AccountId, Account>::empty(),
    {
        let r = AccountMap { entries: Vec::new() };
        assert(r@ =~= Map::<AccountId, Account>::empty());
        r
    }

    /// Number of accounts in the map.
    pub fn len(&self) -> (r: usize)
        ensures
            r == self.entries().len(),
    {
        self.entries.len()
    }

    /// The entry at position `i`, in order of first insertion.
    pub fn entry(&self, i: usize) -> (r: (AccountId, Account))
        requires
            i < self.entries().len(),
        ensures
            r == self.entries()[i as int],
    {
        self.entries[i]
    }

    /// Maps `id` to `data`, replacing what it was mapped to before.
    pub fn insert(&mut self, id: AccountId, data: Account)
        requires
            old(self).wf(),
        ensures
            final(self).wf(),
            final(self).entries() == insert_entry(old(self).entries(), id, data),
            final(self)@ == old(self)@.insert(id, data),
    {
        let n = self.entries.len();
        let mut i: usize = 0;
        while i < n
            invariant
                n == self.entries@.len(),
                i <= n,
                keys_unique(self.entries@),
                self.entries@ == old(self).entries@,
                forall|j: int| 0 <= j < i ==> (#[trigger] self.entries@[j]).0 != id,
            decreases n - i,
        {
            if self.entries[i].0 == id {
                proof {
                    lemma_key_index(self.entries@, i as int);
                }
                self.entries.set(i, (id, data));
                assert(self.entries@ =~= insert_entry(old(self).entries@, id, data));
                proof {
                    lemma_insert_entry(old(self).entries@, id, data);
                }
                return;
            }
            i = i + 1;
        }
        assert(!has_key(self.entries@, id));
        proof {
            lemma_insert_entry(old(self).entries@, id, data);
        }
        self.entries.push((id, data));
        assert(self.entries@ =~= insert_entry(old(self).entries@, id, data));
    }

    /// The data of account `id`, if the map holds it.
    pub fn get(&self, id: AccountId) -> (r: Option<Account>)
        requires
            self.wf(),
        ensures
            r == (if self@.contains_key(id) {
                Some(self@[id])
            } else {
                None::<Account>
            }),
    {
        let n = self.entries.len();
        let mut i: usize = 0;
        while i < n
            invariant
                n == self.entries@.len(),
                i <= n,
                keys_unique(self.entries@),
                forall|j: int| 0 <= j < i ==> (#[trigger] self.entries@[j]).0 != id,
            decreases n - i,
        {
            if self.entries[i].0 == id {
                proof {
                    lemma_key_index(self.entries@, i as int);
                }
                return Some(self.entries[i].1);
            }
            i = i + 1;
        }
        None
    }

    /// A copy of the map with the same entries in the same order.
    pub fn duplicate(&self) -> (r: AccountMap)
        requires
            self.wf(),
        ensures
            r.wf(),
            r.entries() == self.entries(),
            r@ == self@,
    {
        let n = self.entries.len();
        let mut v: Vec<(AccountId, Account)> = Vec::new();
        let mut i: usize = 0;
        while i < n
            invariant
                n == self.entries@.len(),
                i <= n,
                v@ == self.entries@.subrange(0, i as int),
            decreases n - i,
        {
            v.push(self.entries[i]);
            i = i + 1;
        }
        assert(v@ =~= self.entries@);
        AccountMap { entries: v }
    }
}

} // verus!
