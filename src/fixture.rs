//! The execution fixture: per-transaction state diffs folded into the pre- and
//! post-state maps, and assembly of a mined block's environment and result.
use vstd::prelude::*;
use crate::primitives::{Address, Word};
use crate::state::{
    has_address, lemma_first_absent, lemma_first_entry, lemma_first_keeps, lemma_last_absent,
    lemma_last_entry, merge_first, merge_last, unique, AccountSnapshot, AllocEntry, AllocMap,
};

verus! {

/// The state that one transaction read and wrote, as a diff-mode trace
/// reports it.
#[derive(Clone, Debug)]
pub struct StateDiff {
    pub pre: Vec<AllocEntry>,
    pub post: Vec<AllocEntry>,
}

impl StateDiff {
    /// A diff lists each address at most once on either side.
    pub open spec fn wf(&self) -> bool {
        unique(self.pre@) && unique(self.post@)
    }
}

/// Whether every diff that was taken lists each address at most once.
pub open spec fn diffs_wf(traces: Seq<Result<StateDiff, FixtureError>>) -> bool {
    forall|i: int| 0 <= i < traces.len() && (#[trigger] traces[i]) is Ok ==> traces[i]->Ok_0.wf()
}

/// The fields of a mined block that a fixture records.
#[derive(Clone, Debug)]
pub struct BlockHeader {
    pub beneficiary: Address,
    pub difficulty: Word,
    pub gas_limit: u64,
    pub parent_hash: Word,
    pub number: u64,
    pub timestamp: u64,
    pub state_root: Word,
    pub transactions_root: Word,
    pub receipts_root: Word,
    pub logs_bloom: Vec<u8>,
}

/// The block context in which the transactions run.
#[derive(Clone, Debug)]
pub struct ExecutionEnvironment {
    pub current_coinbase: Address,
    pub current_difficulty: Word,
    pub current_gas_limit: u64,
    pub previous_hash: Word,
    pub current_number: u64,
    pub current_timestamp: u64,
    /// Hashes of earlier blocks, by number; each number at most once.
    pub block_hashes: Option<Vec<(Word, Word)>>,
}

/// The expected outcome of running the transactions.
#[derive(Clone, Debug)]
pub struct ExecutionResult {
    pub state_root: Word,
    pub tx_root: Word,
    pub receipt_root: Word,
    pub logs_bloom: Vec<u8>,
    /// One encoded receipt per transaction that produced one, in order.
    pub receipts: Vec<Vec<u8>>,
}

/// Everything needed to replay the captured blocks.
pub struct ExecutionFixture {
    pub env: ExecutionEnvironment,
    /// The state of each touched account before its first touch.
    pub alloc: AllocMap,
    /// The state of each touched account after its last touch.
    pub out_alloc: AllocMap,
    /// The encoded transactions, in execution order.
    pub transactions: Vec<Vec<u8>>,
    pub result: ExecutionResult,
}

/// Why a block's capture was refused.
#[derive(Clone, Copy, Debug, PartialEq, Eq, Structural)]
pub enum FixtureError {
    /// The trace of a transaction could not be taken.
    TraceFailed,
    /// The pre-state and the post-state are the same.
    PreAndPostStateEqual,
}

/// The pre-state after folding the diffs in, transaction by transaction.
pub open spec fn pre_after(m: Map<Address, AccountSnapshot>, diffs: Seq<StateDiff>) -> Map<Address, AccountSnapshot>
    decreases diffs.len(),
{
    if diffs.len() == 0 {
        m
    } else {
        merge_first(pre_after(m, diffs.drop_last()), diffs.last().pre@)
    }
}

/// The post-state after folding the diffs in, transaction by transaction.
pub open spec fn post_after(m: Map<Address, AccountSnapshot>, diffs: Seq<StateDiff>) -> Map<Address, AccountSnapshot>
    decreases diffs.len(),
{
    if diffs.len() == 0 {
        m
    } else {
        merge_last(post_after(m, diffs.drop_last()), diffs.last().post@)
    }
}

/// The receipts that are present, in order.
pub open spec fn present(s: Seq<Option<Vec<u8>>>) -> Seq<Vec<u8>>
    decreases s.len(),
{
    if s.len() == 0 {
        seq![]
    } else {
        let head: Seq<Vec<u8>> = match s[0] {
            Some(r) => seq![r],
            None => seq![],
        };
        head + present(s.subrange(1, s.len() as int))
    }
}

/// Whether every trace was taken.
pub open spec fn all_taken(traces: Seq<Result<StateDiff, FixtureError>>) -> bool {
    forall|i: int| 0 <= i < traces.len() ==> traces[i] is Ok
}

/// The diffs of traces that were all taken.
pub open spec fn taken(traces: Seq<Result<StateDiff, FixtureError>>) -> Seq<StateDiff> {
    traces.map_values(|t: Result<StateDiff, FixtureError>| t->Ok_0)
}

/// Whether no trace failed.
fn all_traces_taken(traces: &Vec<Result<StateDiff, FixtureError>>) -> (r: bool)
    ensures
        r == all_taken(traces@),
{
    let mut k: usize = 0;
    while k < traces.len()
        invariant
            k <= traces@.len(),
            forall|j: int| 0 <= j < k ==> traces@[j] is Ok,
        decreases traces.len() - k,
    {
        if traces[k].is_err() {
            return false;
        }
        k = k + 1;
    }
    true
}

impl ExecutionEnvironment {
    pub open spec fn wf(&self) -> bool {
        match self.block_hashes {
            Some(v) => forall|i: int, j: int| 0 <= i < j < v@.len() ==> v@[i].0 != v@[j].0,
            None => true,
        }
    }

    /// The environment that a block header describes.
    pub fn from_header(h: &BlockHeader) -> (r: ExecutionEnvironment)
        ensures
            r.current_coinbase == h.beneficiary,
            r.current_difficulty == h.difficulty,
            r.current_gas_limit == h.gas_limit,
            r.previous_hash == h.parent_hash,
            r.current_number == h.number,
            r.current_timestamp == h.timestamp,
            r.block_hashes is None,
    {
        ExecutionEnvironment {
            current_coinbase: h.beneficiary,
            current_difficulty: h.difficulty,
            current_gas_limit: h.gas_limit,
            previous_hash: h.parent_hash,
            current_number: h.number,
            current_timestamp: h.timestamp,
            block_hashes: None,
        }
    }
}

impl ExecutionFixture {
    pub open spec fn wf(&self) -> bool {
        self.alloc.wf() && self.out_alloc.wf() && self.env.wf()
    }

    /// An empty fixture.
    pub fn new() -> (r: ExecutionFixture)
        ensures
            r.wf(),
            r.alloc@ == Map::<Address, AccountSnapshot>::empty(),
            r.out_alloc@ == Map::<Address, AccountSnapshot>::empty(),
            r.transactions@.len() == 0,
            r.env.current_coinbase == (Address { hi: 0, mid: 0, lo: 0 }),
            r.env.current_difficulty == (Word { w0: 0, w1: 0, w2: 0, w3: 0 }),
            r.env.current_gas_limit == 0,
            r.env.previous_hash == (Word { w0: 0, w1: 0, w2: 0, w3: 0 }),
            r.env.current_number == 0,
            r.env.current_timestamp == 0,
            r.env.block_hashes is None,
            r.result.state_root == (Word { w0: 0, w1: 0, w2: 0, w3: 0 }),
            r.result.tx_root == (Word { w0: 0, w1: 0, w2: 0, w3: 0 }),
            r.result.receipt_root == (Word { w0: 0, w1: 0, w2: 0, w3: 0 }),
            r.result.logs_bloom@.len() == 0,
            r.result.receipts@.len() == 0,
    {
        let zero = Word { w0: 0, w1: 0, w2: 0, w3: 0 };
        ExecutionFixture {
            env: ExecutionEnvironment {
                current_coinbase: Address { hi: 0, mid: 0, lo: 0 },
                current_difficulty: zero,
                current_gas_limit: 0,
                previous_hash: zero,
                current_number: 0,
                current_timestamp: 0,
                block_hashes: None,
            },
            alloc: AllocMap::new(),
            out_alloc: AllocMap::new(),
            transactions: Vec::new(),
            result: ExecutionResult {
                state_root: zero,
                tx_root: zero,
                receipt_root: zero,
                logs_bloom: Vec::new(),
                receipts: Vec::new(),
            },
        }
    }

    /// Folds one transaction's diff in: its pre-state only where the address
    /// was not seen before, its post-state over what was held.
    pub fn capture_transaction(&mut self, diff: &StateDiff)
        requires
            old(self).wf(),
            diff.wf(),
        ensures
            final(self).wf(),
            final(self).alloc@ == merge_first(old(self).alloc@, diff.pre@),
            final(self).out_alloc@ == merge_last(old(self).out_alloc@, diff.post@),
            final(self).env == old(self).env,
            final(self).transactions == old(self).transactions,
            final(self).result == old(self).result,
    {
        self.alloc.merge_first_writes(&diff.pre);
        self.out_alloc.merge_last_writes(&diff.post);
    }

    /// Folds in the diffs of a block's transactions, in order. Where a trace
    /// failed, nothing is folded in and the fixture is left as it was.
    pub fn capture_block(&mut self, traces: &Vec<Result<StateDiff, FixtureError>>) -> (r: Result<(), FixtureError>)
        requires
            old(self).wf(),
            diffs_wf(traces@),
        ensures
            final(self).wf(),
            r is Ok <==> all_taken(traces@),
            r is Err ==> r == Err::<(), FixtureError>(FixtureError::TraceFailed)
                && final(self).alloc@ == old(self).alloc@
                && final(self).out_alloc@ == old(self).out_alloc@,
            r is Ok ==> final(self).alloc@ == pre_after(old(self).alloc@, taken(traces@))
                && final(self).out_alloc@ == post_after(old(self).out_alloc@, taken(traces@)),
            final(self).env == old(self).env,
            final(self).transactions == old(self).transactions,
            final(self).result == old(self).result,
    {
        if !all_traces_taken(traces) {
            return Err(FixtureError::TraceFailed);
        }
        let ghost a0 = self.alloc@;
        let ghost o0 = self.out_alloc@;
        let mut i: usize = 0;
        while i < traces.len()
            invariant
                i <= traces@.len(),
                all_taken(traces@),
                diffs_wf(traces@),
                self.wf(),
                self.alloc@ == pre_after(a0, taken(traces@).subrange(0, i as int)),
                self.out_alloc@ == post_after(o0, taken(traces@).subrange(0, i as int)),
                self.env == old(self).env,
                self.transactions == old(self).transactions,
                self.result == old(self).result,
            decreases traces.len() - i,
        {
            match &traces[i] {
                Ok(diff) => {
                    self.capture_transaction(diff);
                },
                Err(_) => {},
            }
            proof {
                let d = taken(traces@);
                assert(d.subrange(0, i as int + 1).drop_last() =~= d.subrange(0, i as int));
                assert(d[i as int] == traces@[i as int]->Ok_0);
            }
            i = i + 1;
        }
        assert(taken(traces@).subrange(0, traces@.len() as int) =~= taken(traces@));
        Ok(())
    }

    /// Records a mined block: appends its transactions, keeps the receipts
    /// that were found (one lookup per transaction), and replaces the
    /// environment and the result with those of this block. Refused, with
    /// the fixture left as it was, where no account state changed, that is
    /// where the pre-state equals the post-state.
    pub fn finalize_block(
        &mut self,
        header: &BlockHeader,
        transactions: Vec<Vec<u8>>,
        receipts: Vec<Option<Vec<u8>>>,
    ) -> (r: Result<(), FixtureError>)
        requires
            old(self).wf(),
            receipts@.len() == transactions@.len(),
        ensures
            final(self).wf(),
            final(self).alloc@ == old(self).alloc@,
            final(self).out_alloc@ == old(self).out_alloc@,
            r is Ok <==> old(self).alloc@ != old(self).out_alloc@,
            r is Err ==> r == Err::<(), FixtureError>(FixtureError::PreAndPostStateEqual)
                && final(self).transactions == old(self).transactions
                && final(self).env == old(self).env
                && final(self).result == old(self).result,
            r is Ok ==> recorded(*final(self), old(self).transactions@, header, transactions@, receipts@),
    {
        if self.alloc.same_as(&self.out_alloc) {
            return Err(FixtureError::PreAndPostStateEqual);
        }
        let mut transactions = transactions;
        self.transactions.append(&mut transactions);
        let mut receipts = receipts;
        let ghost all = receipts@;
        let mut kept: Vec<Vec<u8>> = Vec::new();
        while receipts.len() > 0
            invariant
                kept@ + present(receipts@) == present(all),
            decreases receipts.len(),
        {
            let ghost before = receipts@;
            let first = receipts.remove(0);
            proof {
                assert(receipts@ =~= before.subrange(1, before.len() as int));
            }
            match first {
                Some(receipt) => {
                    kept.push(receipt);
                },
                None => {},
            }
            proof {
                assert(kept@ + present(receipts@) =~= present(all));
            }
        }
        assert(present(receipts@) =~= Seq::<Vec<u8>>::empty());
        assert(kept@ =~= present(all));
        proof { lemma_present_len(all); }
        let mut bloom: Vec<u8> = Vec::new();
        let mut i: usize = 0;
        while i < header.logs_bloom.len()
            invariant
                i <= header.logs_bloom@.len(),
                bloom@ == header.logs_bloom@.subrange(0, i as int),
            decreases header.logs_bloom.len() - i,
        {
            bloom.push(header.logs_bloom[i]);
            i = i + 1;
            assert(bloom@ =~= header.logs_bloom@.subrange(0, i as int));
        }
        assert(header.logs_bloom@.subrange(0, i as int) =~= header.logs_bloom@);
        self.env = ExecutionEnvironment::from_header(header);
        self.result = ExecutionResult {
            state_root: header.state_root,
            tx_root: header.transactions_root,
            receipt_root: header.receipts_root,
            logs_bloom: bloom,
            receipts: kept,
        };
        Ok(())
    }

    /// Captures a mined block whole: folds in its transactions' diffs, then
    /// records the block. Where a trace failed, or where the result would
    /// leave the pre-state equal to the post-state, the block is refused and
    /// the fixture is left as it was.
    pub fn generate_execution_fixture(
        &mut self,
        traces: &Vec<Result<StateDiff, FixtureError>>,
        header: &BlockHeader,
        transactions: Vec<Vec<u8>>,
        receipts: Vec<Option<Vec<u8>>>,
    ) -> (r: Result<(), FixtureError>)
        requires
            old(self).wf(),
            diffs_wf(traces@),
            receipts@.len() == transactions@.len(),
        ensures
            final(self).wf(),
            r is Ok <==> all_taken(traces@)
                && pre_after(old(self).alloc@, taken(traces@)) != post_after(old(self).out_alloc@, taken(traces@)),
            !all_taken(traces@) ==> r == Err::<(), FixtureError>(FixtureError::TraceFailed),
            all_taken(traces@) && r is Err ==> r == Err::<(), FixtureError>(FixtureError::PreAndPostStateEqual),
            r is Err ==> final(self).alloc@ == old(self).alloc@
                && final(self).out_alloc@ == old(self).out_alloc@
                && final(self).transactions == old(self).transactions
                && final(self).env == old(self).env
                && final(self).result == old(self).result,
            r is Ok ==> final(self).alloc@ == pre_after(old(self).alloc@, taken(traces@))
                && final(self).out_alloc@ == post_after(old(self).out_alloc@, taken(traces@))
                && recorded(*final(self), old(self).transactions@, header, transactions@, receipts@),
    {
        let saved_alloc = self.alloc.duplicate();
        let saved_out = self.out_alloc.duplicate();
        match self.capture_block(traces) {
            Err(e) => {
                return Err(e);
            },
            Ok(()) => {},
        }
        match self.finalize_block(header, transactions, receipts) {
            Err(e) => {
                self.alloc = saved_alloc;
                self.out_alloc = saved_out;
                Err(e)
            },
            Ok(()) => Ok(()),
        }
    }
}

/// What a fixture holds after recording `header`, with transactions `txs`
/// and receipt lookups `receipts`, on top of the transactions `before`.
pub open spec fn recorded(
    f: ExecutionFixture,
    before: Seq<Vec<u8>>,
    header: &BlockHeader,
    txs: Seq<Vec<u8>>,
    receipts: Seq<Option<Vec<u8>>>,
) -> bool {
    &&& f.transactions@ == before + txs
    &&& f.result.receipts@ == present(receipts)
    &&& f.result.receipts@.len() <= txs.len()
    &&& f.result.state_root == header.state_root
    &&& f.result.tx_root == header.transactions_root
    &&& f.result.receipt_root == header.receipts_root
    &&& f.result.logs_bloom@ == header.logs_bloom@
    &&& f.env.current_coinbase == header.beneficiary
    &&& f.env.current_difficulty == header.difficulty
    &&& f.env.current_gas_limit == header.gas_limit
    &&& f.env.previous_hash == header.parent_hash
    &&& f.env.current_number == header.number
    &&& f.env.current_timestamp == header.timestamp
    &&& f.env.block_hashes is None
}

/// Where no diff reports a pre-state for `k` and `m` does not hold it, the
/// folded pre-state does not hold it either.
proof fn lemma_pre_absent(m: Map<Address, AccountSnapshot>, diffs: Seq<StateDiff>, k: Address)
    requires
        !m.contains_key(k),
        forall|j: int| 0 <= j < diffs.len() ==> !has_address(#[trigger] diffs[j].pre@, k),
    ensures
        !pre_after(m, diffs).contains_key(k),
    decreases diffs.len(),
{
    if diffs.len() > 0 {
        let p = diffs.drop_last();
        assert forall|j: int| 0 <= j < p.len() implies !has_address(#[trigger] p[j].pre@, k) by {
            assert(p[j] == diffs[j]);
        }
        lemma_pre_absent(m, p, k);
        lemma_first_absent(pre_after(m, p), diffs.last().pre@, k);
    }
}

/// Over a block: the pre-state of an address that was not held before is
/// what the first transaction to touch it reports.
pub proof fn lemma_block_pre_state_first_write_wins(
    m: Map<Address, AccountSnapshot>,
    diffs: Seq<StateDiff>,
    i: int,
    e: int,
)
    requires
        forall|j: int| 0 <= j < diffs.len() ==> (#[trigger] diffs[j]).wf(),
        0 <= i < diffs.len(),
        0 <= e < diffs[i].pre@.len(),
        !m.contains_key(diffs[i].pre@[e].address),
        forall|j: int| 0 <= j < i ==> !has_address(#[trigger] diffs[j].pre@, diffs[i].pre@[e].address),
    ensures
        pre_after(m, diffs).contains_key(diffs[i].pre@[e].address),
        pre_after(m, diffs)[diffs[i].pre@[e].address] == diffs[i].pre@[e].state@,
    decreases diffs.len(),
{
    let k = diffs[i].pre@[e].address;
    let p = diffs.drop_last();
    if i == diffs.len() - 1 {
        assert forall|j: int| 0 <= j < p.len() implies !has_address(#[trigger] p[j].pre@, k) by {
            assert(p[j] == diffs[j]);
        }
        lemma_pre_absent(m, p, k);
        assert(diffs[i].wf());
        lemma_first_entry(pre_after(m, p), diffs.last().pre@, e);
    } else {
        assert forall|j: int| 0 <= j < p.len() implies (#[trigger] p[j]).wf() by {
            assert(p[j] == diffs[j]);
        }
        assert forall|j: int| 0 <= j < i implies !has_address(#[trigger] p[j].pre@, k) by {
            assert(p[j] == diffs[j]);
        }
        assert(p[i] == diffs[i]);
        lemma_block_pre_state_first_write_wins(m, p, i, e);
        lemma_first_keeps(pre_after(m, p), diffs.last().pre@, k);
    }
}

/// Over a block: the post-state of an address is what the last transaction
/// to touch it reports.
pub proof fn lemma_block_post_state_last_write_wins(
    m: Map<Address, AccountSnapshot>,
    diffs: Seq<StateDiff>,
    i: int,
    e: int,
)
    requires
        forall|j: int| 0 <= j < diffs.len() ==> (#[trigger] diffs[j]).wf(),
        0 <= i < diffs.len(),
        0 <= e < diffs[i].post@.len(),
        forall|j: int| i < j < diffs.len() ==> !has_address(#[trigger] diffs[j].post@, diffs[i].post@[e].address),
    ensures
        post_after(m, diffs).contains_key(diffs[i].post@[e].address),
        post_after(m, diffs)[diffs[i].post@[e].address] == diffs[i].post@[e].state@,
    decreases diffs.len(),
{
    let k = diffs[i].post@[e].address;
    let p = diffs.drop_last();
    if i == diffs.len() - 1 {
        assert(diffs[i].wf());
        lemma_last_entry(post_after(m, p), diffs.last().post@, e);
    } else {
        assert forall|j: int| 0 <= j < p.len() implies (#[trigger] p[j]).wf() by {
            assert(p[j] == diffs[j]);
        }
        assert forall|j: int| i < j < p.len() implies !has_address(#[trigger] p[j].post@, k) by {
            assert(p[j] == diffs[j]);
        }
        assert(p[i] == diffs[i]);
        lemma_block_post_state_last_write_wins(m, p, i, e);
        assert(!has_address(diffs[diffs.len() - 1].post@, k));
        lemma_last_absent(post_after(m, p), diffs.last().post@, k);
    }
}

/// No more receipts are kept than were looked up.
proof fn lemma_present_len(s: Seq<Option<Vec<u8>>>)
    ensures
        present(s).len() <= s.len(),
    decreases s.len(),
{
    if s.len() > 0 {
        lemma_present_len(s.subrange(1, s.len() as int));
    }
}

} // verus!
