//! Account-state maps and their two merge rules: the pre-state keeps the first
//! value seen for an address, the post-state keeps the last.
use vstd::prelude::*;
use vstd::set_lib::lemma_len_subset;
use crate::primitives::{Address, Word};

verus! {

/// One storage slot of an account.
#[derive(Clone, Copy, Debug, PartialEq, Eq, Structural)]
pub struct StorageSlot {
    pub key: Word,
    pub value: Word,
}

/// A snapshot of one account, as the trace reports it.
#[derive(Clone, Debug, PartialEq, Eq)]
pub struct AccountState {
    pub balance: Word,
    pub nonce: u64,
    pub code: Vec<u8>,
    pub storage: Vec<StorageSlot>,
}

/// What an account snapshot holds.
pub struct AccountSnapshot {
    pub balance: Word,
    pub nonce: u64,
    pub code: Seq<u8>,
    pub storage: Seq<StorageSlot>,
}

impl View for AccountState {
    type V = AccountSnapshot;

    open spec fn view(&self) -> AccountSnapshot {
        AccountSnapshot {
            balance: self.balance,
            nonce: self.nonce,
            code: self.code@,
            storage: self.storage@,
        }
    }
}

/// Whether two byte lists hold the same bytes.
fn same_bytes(a: &Vec<u8>, b: &Vec<u8>) -> (r: bool)
    ensures
        r == (a@ == b@),
{
    if a.len() != b.len() {
        return false;
    }
    let mut i: usize = 0;
    while i < a.len()
        invariant
            i <= a@.len(),
            a@.len() == b@.len(),
            forall|j: int| 0 <= j < i ==> a@[j] == b@[j],
        decreases a.len() - i,
    {
        if a[i] != b[i] {
            return false;
        }
        i = i + 1;
    }
    assert(a@ =~= b@);
    true
}

/// Whether two slot lists hold the same slots.
fn same_slots(a: &Vec<StorageSlot>, b: &Vec<StorageSlot>) -> (r: bool)
    ensures
        r == (a@ == b@),
{
    if a.len() != b.len() {
        return false;
    }
    let mut i: usize = 0;
    while i < a.len()
        invariant
            i <= a@.len(),
            a@.len() == b@.len(),
            forall|j: int| 0 <= j < i ==> a@[j] == b@[j],
        decreases a.len() - i,
    {
        if a[i] != b[i] {
            return false;
        }
        i = i + 1;
    }
    assert(a@ =~= b@);
    true
}

impl AccountState {
    /// A copy of the snapshot.
    pub fn copy(&self) -> (r: AccountState)
        ensures
            r@ == self@,
    {
        let mut code: Vec<u8> = Vec::new();
        let mut i: usize = 0;
        while i < self.code.len()
            invariant
                i <= self.code@.len(),
                code@ == self.code@.subrange(0, i as int),
            decreases self.code.len() - i,
        {
            code.push(self.code[i]);
            i = i + 1;
            assert(code@ =~= self.code@.subrange(0, i as int));
        }
        assert(self.code@.subrange(0, i as int) =~= self.code@);
        let mut storage: Vec<StorageSlot> = Vec::new();
        let mut k: usize = 0;
        while k < self.storage.len()
            invariant
                k <= self.storage@.len(),
                storage@ == self.storage@.subrange(0, k as int),
            decreases self.storage.len() - k,
        {
            storage.push(self.storage[k]);
            k = k + 1;
            assert(storage@ =~= self.storage@.subrange(0, k as int));
        }
        assert(self.storage@.subrange(0, k as int) =~= self.storage@);
        AccountState { balance: self.balance, nonce: self.nonce, code, storage }
    }

    /// Whether both snapshots hold the same balance, nonce, code and storage.
    pub fn same_as(&self, other: &AccountState) -> (r: bool)
        ensures
            r == (self@ == other@),
    {
        self.balance == other.balance && self.nonce == other.nonce
            && same_bytes(&self.code, &other.code) && same_slots(&self.storage, &other.storage)
    }
}

/// One address with its account snapshot.
#[derive(Clone, Debug, PartialEq, Eq)]
pub struct AllocEntry {
    pub address: Address,
    pub state: AccountState,
}

impl AllocEntry {
    /// A copy of the entry.
    pub fn copy(&self) -> (r: AllocEntry)
        ensures
            r.address == self.address,
            r.state@ == self.state@,
    {
        AllocEntry { address: self.address, state: self.state.copy() }
    }
}

/// The map that a sequence of entries describes; a later entry for an
/// address replaces an earlier one.
pub open spec fn map_of(s: Seq<AllocEntry>) -> Map<Address, AccountSnapshot>
    decreases s.len(),
{
    if s.len() == 0 {
        Map::empty()
    } else {
        map_of(s.drop_last()).insert(s.last().address, s.last().state@)
    }
}

/// No address occurs twice.
pub open spec fn unique(s: Seq<AllocEntry>) -> bool {
    forall|i: int, j: int| 0 <= i < j < s.len() ==> s[i].address != s[j].address
}

/// Whether some entry of `s` is for `k`.
pub open spec fn has_address(s: Seq<AllocEntry>, k: Address) -> bool {
    exists|i: int| 0 <= i < s.len() && s[i].address == k
}

/// Folds `s` into `m`, keeping the value already held for an address.
pub open spec fn merge_first(m: Map<Address, AccountSnapshot>, s: Seq<AllocEntry>) -> Map<Address, AccountSnapshot>
    decreases s.len(),
{
    if s.len() == 0 {
        m
    } else {
        let acc = merge_first(m, s.drop_last());
        if acc.contains_key(s.last().address) {
            acc
        } else {
            acc.insert(s.last().address, s.last().state@)
        }
    }
}

/// Folds `s` into `m`, replacing the value held for an address.
pub open spec fn merge_last(m: Map<Address, AccountSnapshot>, s: Seq<AllocEntry>) -> Map<Address, AccountSnapshot>
    decreases s.len(),
{
    if s.len() == 0 {
        m
    } else {
        merge_last(m, s.drop_last()).insert(s.last().address, s.last().state@)
    }
}

/// The addresses of `map_of(s)` are those of `s`; with unique addresses each
/// entry is what the map holds, and the map has one key per entry.
pub proof fn lemma_map_of(s: Seq<AllocEntry>)
    ensures
        map_of(s).dom().finite(),
        forall|k: Address| map_of(s).contains_key(k) <==> has_address(s, k),
        unique(s) ==> forall|i: int| 0 <= i < s.len() ==> map_of(s)[#[trigger] s[i].address] == s[i].state@,
        unique(s) ==> map_of(s).dom().len() == s.len(),
    decreases s.len(),
{
    if s.len() > 0 {
        let p = s.drop_last();
        lemma_map_of(p);
        assert forall|k: Address| map_of(s).contains_key(k) <==> has_address(s, k) by {
            if has_address(s, k) {
                let i = choose|i: int| 0 <= i < s.len() && s[i].address == k;
                if i < p.len() {
                    assert(p[i].address == k);
                }
            }
            if has_address(p, k) {
                let i = choose|i: int| 0 <= i < p.len() && p[i].address == k;
                assert(s[i].address == k);
            }
        }
        if unique(s) {
            assert(unique(p));
            assert(!has_address(p, s.last().address)) by {
                if has_address(p, s.last().address) {
                    let j = choose|j: int| 0 <= j < p.len() && p[j].address == s.last().address;
                    assert(s[j].address == s[s.len() - 1].address);
                }
            }
            assert(!map_of(p).dom().contains(s.last().address));
            assert(map_of(s).dom() =~= map_of(p).dom().insert(s.last().address));
            assert forall|i: int| 0 <= i < s.len() implies map_of(s)[#[trigger] s[i].address] == s[i].state@ by {
                if i < p.len() {
                    assert(p[i] == s[i]);
                    assert(map_of(p)[p[i].address] == p[i].state@);
                }
            }
        }
    }
}

/// Whether `m` holds exactly the entry `e`.
pub open spec fn holds_entry(m: Map<Address, AccountSnapshot>, e: AllocEntry) -> bool {
    m.contains_key(e.address) && m[e.address] == e.state@
}

/// Whether two entry lists hold the same addresses, in the same order, with
/// the same states.
pub open spec fn same_entries(a: Seq<AllocEntry>, b: Seq<AllocEntry>) -> bool {
    a.len() == b.len() && forall|i: int| 0 <= i < a.len()
        ==> (#[trigger] a[i]).address == b[i].address && a[i].state@ == b[i].state@
}

/// Entry lists with the same addresses and states describe the same map.
pub proof fn lemma_same_entries(a: Seq<AllocEntry>, b: Seq<AllocEntry>)
    requires
        same_entries(a, b),
    ensures
        map_of(a) == map_of(b),
        unique(a) == unique(b),
    decreases a.len(),
{
    if a.len() > 0 {
        assert(same_entries(a.drop_last(), b.drop_last()));
        lemma_same_entries(a.drop_last(), b.drop_last());
        assert(a[a.len() - 1].address == b[b.len() - 1].address);
    }
    assert forall|i: int| 0 <= i < a.len() implies a[i].address == b[i].address by {
        assert(a[i].address == b[i].address);
    }
    if unique(a) {
        assert forall|i: int, j: int| 0 <= i < j < b.len() implies b[i].address != b[j].address by {
            assert(a[i].address == b[i].address && a[j].address == b[j].address);
        }
    }
    if unique(b) {
        assert forall|i: int, j: int| 0 <= i < j < a.len() implies a[i].address != a[j].address by {
            assert(a[i].address == b[i].address && a[j].address == b[j].address);
        }
    }
}

/// A map of account states, held as entries with distinct addresses.
pub struct AllocMap {
    pub entries: Vec<AllocEntry>,
}

impl View for AllocMap {
    type V = Map<Address, AccountSnapshot>;

    open spec fn view(&self) -> Map<Address, AccountSnapshot> {
        map_of(self.entries@)
    }
}

impl AllocMap {
    pub open spec fn wf(&self) -> bool {
        unique(self.entries@)
    }

    /// The empty map.
    pub fn new() -> (r: AllocMap)
        ensures
            r.wf(),
            r@ == Map::<Address, AccountSnapshot>::empty(),
    {
        AllocMap { entries: Vec::new() }
    }

    /// A copy holding the same addresses with the same states.
    pub fn duplicate(&self) -> (r: AllocMap)
        requires
            self.wf(),
        ensures
            r.wf(),
            r@ == self@,
    {
        let mut entries: Vec<AllocEntry> = Vec::new();
        let mut i: usize = 0;
        while i < self.entries.len()
            invariant
                i <= self.entries@.len(),
                same_entries(entries@, self.entries@.subrange(0, i as int)),
            decreases self.entries.len() - i,
        {
            entries.push(self.entries[i].copy());
            i = i + 1;
        }
        assert(self.entries@.subrange(0, i as int) =~= self.entries@);
        proof { lemma_same_entries(entries@, self.entries@); }
        AllocMap { entries }
    }

    /// The number of addresses held.
    pub fn len(&self) -> (r: usize)
        requires
            self.wf(),
        ensures
            r == self@.dom().len(),
    {
        proof { lemma_map_of(self.entries@); }
        self.entries.len()
    }

    /// The position of `address` among the entries, if it is held.
    fn position(&self, address: Address) -> (r: Option<usize>)
        requires
            self.wf(),
        ensures
            match r {
                Some(i) => i < self.entries@.len() && self.entries@[i as int].address == address,
                None => !self@.contains_key(address),
            },
    {
        proof { lemma_map_of(self.entries@); }
        let mut i: usize = 0;
        while i < self.entries.len()
            invariant
                i <= self.entries@.len(),
                forall|j: int| 0 <= j < i ==> self.entries@[j].address != address,
            decreases self.entries.len() - i,
        {
            if self.entries[i].address == address {
                return Some(i);
            }
            i = i + 1;
        }
        proof {
            assert(!has_address(self.entries@, address));
        }
        None
    }

    /// The state held for `address`.
    pub fn get(&self, address: Address) -> (r: Option<AccountState>)
        requires
            self.wf(),
        ensures
            match r {
                Some(st) => self@.contains_key(address) && st@ == self@[address],
                None => !self@.contains_key(address),
            },
    {
        proof { lemma_map_of(self.entries@); }
        match self.position(address) {
            Some(i) => {
                proof {
                    assert(has_address(self.entries@, address));
                    assert(self@[self.entries@[i as int].address] == self.entries@[i as int].state@);
                }
                Some(self.entries[i].state.copy())
            },
            None => None,
        }
    }

    /// Records `state` for `address` unless the address is already held.
    pub fn insert_first(&mut self, address: Address, state: AccountState)
        requires
            old(self).wf(),
        ensures
            final(self).wf(),
            final(self)@ == (if old(self)@.contains_key(address) { old(self)@ } else { old(self)@.insert(address, state@) }),
    {
        proof { lemma_map_of(self.entries@); }
        match self.position(address) {
            Some(i) => {
                proof { assert(has_address(self.entries@, address)); }
            },
            None => {
                let ghost s = self.entries@;
                self.entries.push(AllocEntry { address, state });
                proof {
                    assert(self.entries@.drop_last() =~= s);
                    assert(!has_address(s, address));
                    assert(unique(self.entries@));
                }
            },
        }
    }

    /// Records `state` for `address`, replacing what was held.
    pub fn insert_last(&mut self, address: Address, state: AccountState)
        requires
            old(self).wf(),
        ensures
            final(self).wf(),
            final(self)@ == old(self)@.insert(address, state@),
    {
        proof { lemma_map_of(self.entries@); }
        let ghost s = self.entries@;
        match self.position(address) {
            Some(i) => {
                self.entries.set(i, AllocEntry { address, state });
                proof {
                    let t = self.entries@;
                    assert(t == s.update(i as int, AllocEntry { address, state }));
                    assert(forall|j: int| 0 <= j < t.len() ==> t[j].address == s[j].address);
                    assert(unique(t));
                    lemma_map_of(t);
                    assert forall|k: Address| map_of(t).contains_key(k) <==> map_of(s).insert(address, state@).contains_key(k) by {
                        if has_address(s, k) {
                            let j = choose|j: int| 0 <= j < s.len() && s[j].address == k;
                            assert(t[j].address == k);
                            assert(has_address(t, k));
                        }
                        if has_address(t, k) {
                            let j = choose|j: int| 0 <= j < t.len() && t[j].address == k;
                            assert(s[j].address == k);
                            assert(has_address(s, k));
                        }
                    }
                    assert forall|k: Address| #[trigger] map_of(t).contains_key(k) implies map_of(t)[k] == map_of(s).insert(address, state@)[k] by {
                        assert(has_address(t, k));
                        let j = choose|j: int| 0 <= j < t.len() && t[j].address == k;
                        assert(map_of(t)[t[j].address] == t[j].state@);
                        if j != i {
                            assert(k != address);
                            assert(s[j] == t[j]);
                            assert(map_of(s)[s[j].address] == s[j].state@);
                        }
                    }
                    assert(map_of(t) =~= map_of(s).insert(address, state@));
                }
            },
            None => {
                self.entries.push(AllocEntry { address, state });
                proof {
                    assert(self.entries@.drop_last() =~= s);
                    assert(!has_address(s, address));
                    assert(unique(self.entries@));
                }
            },
        }
    }

    /// Folds `entries` in, in order, keeping the state already held for an
    /// address.
    pub fn merge_first_writes(&mut self, entries: &Vec<AllocEntry>)
        requires
            old(self).wf(),
        ensures
            final(self).wf(),
            final(self)@ == merge_first(old(self)@, entries@),
    {
        let ghost m0 = self@;
        let mut i: usize = 0;
        while i < entries.len()
            invariant
                i <= entries@.len(),
                self.wf(),
                self@ == merge_first(m0, entries@.subrange(0, i as int)),
            decreases entries.len() - i,
        {
            let e = entries[i].copy();
            self.insert_first(e.address, e.state);
            proof {
                assert(entries@.subrange(0, i as int + 1).drop_last() =~= entries@.subrange(0, i as int));
            }
            i = i + 1;
        }
        assert(entries@.subrange(0, entries@.len() as int) =~= entries@);
    }

    /// Folds `entries` in, in order, replacing the state held for an address.
    pub fn merge_last_writes(&mut self, entries: &Vec<AllocEntry>)
        requires
            old(self).wf(),
        ensures
            final(self).wf(),
            final(self)@ == merge_last(old(self)@, entries@),
    {
        let ghost m0 = self@;
        let mut i: usize = 0;
        while i < entries.len()
            invariant
                i <= entries@.len(),
                self.wf(),
                self@ == merge_last(m0, entries@.subrange(0, i as int)),
            decreases entries.len() - i,
        {
            let e = entries[i].copy();
            self.insert_last(e.address, e.state);
            proof {
                assert(entries@.subrange(0, i as int + 1).drop_last() =~= entries@.subrange(0, i as int));
            }
            i = i + 1;
        }
        assert(entries@.subrange(0, entries@.len() as int) =~= entries@);
    }

    /// Whether both maps hold the same addresses with the same states.
    pub fn same_as(&self, other: &AllocMap) -> (r: bool)
        requires
            self.wf(),
            other.wf(),
        ensures
            r == (self@ == other@),
    {
        proof {
            lemma_map_of(self.entries@);
            lemma_map_of(other.entries@);
        }
        if self.entries.len() != other.entries.len() {
            return false;
        }
        let mut i: usize = 0;
        while i < self.entries.len()
            invariant
                i <= self.entries@.len(),
                self.wf(),
                other.wf(),
                self.entries@.len() == other.entries@.len(),
                forall|j: int| 0 <= j < i ==> holds_entry(other@, #[trigger] self.entries@[j]),
            decreases self.entries.len() - i,
        {
            proof {
                lemma_map_of(self.entries@);
                lemma_map_of(other.entries@);
            }
            let e = &self.entries[i];
            proof { assert(has_address(self.entries@, e.address)); }
            match other.get(e.address) {
                Some(st) => {
                    if !st.same_as(&e.state) {
                        assert(self@[self.entries@[i as int].address] == e.state@);
                        return false;
                    }
                    assert(holds_entry(other@, self.entries@[i as int]));
                },
                None => {
                    assert(self@.contains_key(e.address)) by {
                        assert(has_address(self.entries@, e.address));
                    }
                    return false;
                },
            }
            i = i + 1;
        }
        proof {
            lemma_map_of(self.entries@);
            lemma_map_of(other.entries@);
            let a = self@;
            let b = other@;
            assert forall|k: Address| #[trigger] a.contains_key(k) implies b.contains_key(k) && a[k] == b[k] by {
                assert(has_address(self.entries@, k));
                let j = choose|j: int| 0 <= j < self.entries@.len() && self.entries@[j].address == k;
                assert(holds_entry(other@, self.entries@[j]));
                assert(a[self.entries@[j].address] == self.entries@[j].state@);
            }
            assert forall|k: Address| b.contains_key(k) implies a.contains_key(k) by {
                if !a.contains_key(k) {
                    assert forall|x: Address| a.dom().contains(x) implies b.dom().remove(k).contains(x) by {
                        assert(a.contains_key(x));
                    }
                    assert(b.dom().remove(k).len() == b.dom().len() - 1);
                    lemma_len_subset(a.dom(), b.dom().remove(k));
                }
            }
            assert(a =~= b);
        }
        true
    }
}

/// Where `m` already holds `k`, first-write merging keeps its state.
pub proof fn lemma_first_keeps(m: Map<Address, AccountSnapshot>, s: Seq<AllocEntry>, k: Address)
    requires
        m.contains_key(k),
    ensures
        merge_first(m, s).contains_key(k),
        merge_first(m, s)[k] == m[k],
    decreases s.len(),
{
    if s.len() > 0 {
        lemma_first_keeps(m, s.drop_last(), k);
    }
}

/// First-write merging adds no address that neither `m` nor `s` holds.
pub proof fn lemma_first_absent(m: Map<Address, AccountSnapshot>, s: Seq<AllocEntry>, k: Address)
    requires
        !m.contains_key(k),
        !has_address(s, k),
    ensures
        !merge_first(m, s).contains_key(k),
    decreases s.len(),
{
    if s.len() > 0 {
        assert(!has_address(s.drop_last(), k)) by {
            if has_address(s.drop_last(), k) {
                let i = choose|i: int| 0 <= i < s.len() - 1 && s.drop_last()[i].address == k;
                assert(s[i].address == k);
            }
        }
        lemma_first_absent(m, s.drop_last(), k);
    }
}

/// For an address that `m` does not hold, first-write merging of entries with
/// distinct addresses gives the entry's state.
pub proof fn lemma_first_entry(m: Map<Address, AccountSnapshot>, s: Seq<AllocEntry>, i: int)
    requires
        unique(s),
        0 <= i < s.len(),
        !m.contains_key(s[i].address),
    ensures
        merge_first(m, s).contains_key(s[i].address),
        merge_first(m, s)[s[i].address] == s[i].state@,
    decreases s.len(),
{
    let p = s.drop_last();
    if i == s.len() - 1 {
        assert(!has_address(p, s[i].address));
        lemma_first_absent(m, p, s[i].address);
    } else {
        assert(p[i] == s[i]);
        lemma_first_entry(m, p, i);
    }
}

/// Last-write merging of entries with distinct addresses gives each entry's
/// state.
pub proof fn lemma_last_entry(m: Map<Address, AccountSnapshot>, s: Seq<AllocEntry>, i: int)
    requires
        unique(s),
        0 <= i < s.len(),
    ensures
        merge_last(m, s).contains_key(s[i].address),
        merge_last(m, s)[s[i].address] == s[i].state@,
    decreases s.len(),
{
    let p = s.drop_last();
    if i < s.len() - 1 {
        assert(p[i] == s[i]);
        lemma_last_entry(m, p, i);
    }
}

/// Last-write merging leaves alone an address that `s` does not hold.
pub proof fn lemma_last_absent(m: Map<Address, AccountSnapshot>, s: Seq<AllocEntry>, k: Address)
    requires
        !has_address(s, k),
    ensures
        merge_last(m, s).contains_key(k) == m.contains_key(k),
        m.contains_key(k) ==> merge_last(m, s)[k] == m[k],
    decreases s.len(),
{
    if s.len() > 0 {
        assert(!has_address(s.drop_last(), k)) by {
            if has_address(s.drop_last(), k) {
                let i = choose|i: int| 0 <= i < s.len() - 1 && s.drop_last()[i].address == k;
                assert(s[i].address == k);
            }
        }
        assert(s.last().address != k);
        lemma_last_absent(m, s.drop_last(), k);
    }
}

/// Pre-state: where transactions with diffs `d1` then `d2` both touch an
/// address that was not held before, the merged pre-state of that address is
/// the one that `d1` reports.
pub proof fn lemma_pre_state_first_write_wins(
    m: Map<Address, AccountSnapshot>,
    d1: Seq<AllocEntry>,
    d2: Seq<AllocEntry>,
    i: int,
)
    requires
        unique(d1),
        0 <= i < d1.len(),
        !m.contains_key(d1[i].address),
    ensures
        merge_first(merge_first(m, d1), d2)[d1[i].address] == d1[i].state@,
{
    lemma_first_entry(m, d1, i);
    lemma_first_keeps(merge_first(m, d1), d2, d1[i].address);
}

/// Post-state: where transactions with diffs `d1` then `d2` touch an address,
/// the merged post-state of that address is the one that `d2` reports.
pub proof fn lemma_post_state_last_write_wins(
    m: Map<Address, AccountSnapshot>,
    d1: Seq<AllocEntry>,
    d2: Seq<AllocEntry>,
    i: int,
)
    requires
        unique(d2),
        0 <= i < d2.len(),
    ensures
        merge_last(merge_last(m, d1), d2)[d2[i].address] == d2[i].state@,
{
    lemma_last_entry(merge_last(m, d1), d2, i);
}

} // verus!
