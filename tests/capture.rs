use fixture_capture::repl::{checked_words, command_words, CommandLineError};
use fixture_capture::orderer::{order_pending, PooledTx};
use fixture_capture::blobs::{extract_blob_data, BlobTx, IndexedBlobHash, TxType};
use fixture_capture::fixture::{BlockHeader, ExecutionFixture, FixtureError, StateDiff};
use fixture_capture::primitives::{Address, Word};
use fixture_capture::repl::{ReplCommand, Session, SessionAction, SessionEvent};
use fixture_capture::state::{AccountState, AllocEntry, AllocMap, StorageSlot};

fn addr(n: u32) -> Address {
    Address { hi: 0, mid: 0, lo: n }
}

fn word(n: u64) -> Word {
    Word { w0: 0, w1: 0, w2: 0, w3: n }
}

fn blob_tx(to: Option<Address>, signer: Address, hashes: Vec<Word>) -> BlobTx {
    BlobTx { tx_type: TxType::Eip4844, to, signer, has_calldata: false, blob_hashes: hashes }
}

fn acct(balance: u64, nonce: u64) -> AccountState {
    AccountState { balance: word(balance), nonce, code: vec![], storage: vec![] }
}

fn entry(a: u32, balance: u64, nonce: u64) -> AllocEntry {
    AllocEntry { address: addr(a), state: acct(balance, nonce) }
}

fn header() -> BlockHeader {
    BlockHeader {
        beneficiary: addr(9),
        difficulty: word(1),
        gas_limit: 30_000_000,
        parent_hash: word(77),
        number: 5,
        timestamp: 1_700_000_000,
        state_root: word(11),
        transactions_root: word(12),
        receipts_root: word(13),
        logs_bloom: vec![0u8; 256],
    }
}

#[test]
fn unattributed_blobs_advance_the_index() {
    let b = addr(1);
    let s = addr(2);
    let h = word(42);
    let txs = vec![
        blob_tx(Some(addr(3)), s, vec![word(7), word(8)]),
        blob_tx(Some(b), s, vec![h]),
    ];
    let r = extract_blob_data(b, s, &txs);
    assert_eq!(r, vec![IndexedBlobHash { hash: h, index: 2 }]);
}

#[test]
fn wrong_signer_advances_the_index() {
    let b = addr(1);
    let s = addr(2);
    let txs = vec![
        blob_tx(Some(b), addr(5), vec![word(7)]),
        blob_tx(Some(b), s, vec![word(8), word(9)]),
    ];
    let r = extract_blob_data(b, s, &txs);
    assert_eq!(
        r,
        vec![IndexedBlobHash { hash: word(8), index: 1 }, IndexedBlobHash { hash: word(9), index: 2 }]
    );
}

#[test]
fn creations_and_non_blob_types_take_no_slots() {
    let b = addr(1);
    let s = addr(2);
    let mut legacy = blob_tx(Some(b), s, vec![]);
    legacy.tx_type = TxType::Legacy;
    legacy.has_calldata = true;
    let txs = vec![
        blob_tx(None, s, vec![word(7), word(8)]),
        legacy,
        blob_tx(Some(b), s, vec![word(3)]),
    ];
    let r = extract_blob_data(b, s, &txs);
    assert_eq!(r, vec![IndexedBlobHash { hash: word(3), index: 0 }]);
}

#[test]
fn no_batch_data_gives_empty() {
    let txs: Vec<BlobTx> = vec![];
    assert!(extract_blob_data(addr(1), addr(2), &txs).is_empty());
}

#[test]
fn indices_are_distinct_and_below_slot_count() {
    let b = addr(1);
    let s = addr(2);
    let txs = vec![
        blob_tx(Some(b), s, vec![word(1), word(2)]),
        blob_tx(Some(addr(4)), s, vec![word(3)]),
        blob_tx(Some(b), s, vec![word(5), word(6), word(7)]),
    ];
    let r = extract_blob_data(b, s, &txs);
    let idx: Vec<u64> = r.iter().map(|h| h.index).collect();
    assert_eq!(idx, vec![0, 1, 3, 4, 5]);
}

#[test]
fn pre_state_keeps_first_and_post_state_keeps_last() {
    let mut f = ExecutionFixture::new();
    let t1 = StateDiff { pre: vec![entry(1, 100, 0)], post: vec![entry(1, 90, 1)] };
    let t2 = StateDiff { pre: vec![entry(1, 90, 1)], post: vec![entry(1, 70, 2)] };
    f.capture_transaction(&t1);
    f.capture_transaction(&t2);
    assert_eq!(f.alloc.get(addr(1)), Some(acct(100, 0)));
    assert_eq!(f.out_alloc.get(addr(1)), Some(acct(70, 2)));
    assert_eq!(f.alloc.len(), 1);
}

#[test]
fn failed_trace_leaves_the_fixture_untouched() {
    let mut f = ExecutionFixture::new();
    let traces = vec![
        Ok(StateDiff { pre: vec![entry(1, 100, 0)], post: vec![entry(1, 90, 1)] }),
        Err(FixtureError::TraceFailed),
    ];
    assert_eq!(f.capture_block(&traces), Err(FixtureError::TraceFailed));
    assert_eq!(f.alloc.len(), 0);
    assert_eq!(f.out_alloc.len(), 0);
}

#[test]
fn block_capture_merges_in_order() {
    let mut f = ExecutionFixture::new();
    let traces = vec![
        Ok(StateDiff { pre: vec![entry(1, 100, 0), entry(2, 5, 0)], post: vec![entry(1, 90, 1), entry(2, 15, 0)] }),
        Ok(StateDiff { pre: vec![entry(2, 15, 0)], post: vec![entry(2, 25, 0)] }),
    ];
    assert_eq!(f.capture_block(&traces), Ok(()));
    assert_eq!(f.alloc.get(addr(2)), Some(acct(5, 0)));
    assert_eq!(f.out_alloc.get(addr(2)), Some(acct(25, 0)));
    assert_eq!(f.out_alloc.get(addr(1)), Some(acct(90, 1)));
}

#[test]
fn unchanged_state_is_refused() {
    let mut f = ExecutionFixture::new();
    let r = f.finalize_block(&header(), vec![vec![1, 2]], vec![None]);
    assert_eq!(r, Err(FixtureError::PreAndPostStateEqual));
    assert!(f.transactions.is_empty());
    assert_eq!(f.env.current_number, 0);
    assert_eq!(f.result.state_root, word(0));
}

#[test]
fn finalize_records_block_and_present_receipts() {
    let mut f = ExecutionFixture::new();
    f.capture_transaction(&StateDiff { pre: vec![entry(1, 100, 0)], post: vec![entry(1, 90, 1)] });
    let r = f.finalize_block(&header(), vec![vec![1], vec![2], vec![3]], vec![Some(vec![7]), None, Some(vec![8])]);
    assert_eq!(r, Ok(()));
    assert_eq!(f.transactions, vec![vec![1], vec![2], vec![3]]);
    assert_eq!(f.result.receipts, vec![vec![7], vec![8]]);
    assert_eq!(f.result.state_root, word(11));
    assert_eq!(f.result.tx_root, word(12));
    assert_eq!(f.result.receipt_root, word(13));
    assert_eq!(f.env.current_number, 5);
    assert_eq!(f.env.previous_hash, word(77));
    assert_eq!(f.env.current_coinbase, addr(9));
    assert!(f.env.block_hashes.is_none());
}

#[test]
fn maps_with_same_entries_in_other_order_are_equal() {
    let mut a = AllocMap::new();
    let mut b = AllocMap::new();
    a.insert_last(addr(1), acct(1, 0));
    a.insert_last(addr(2), acct(2, 0));
    b.insert_last(addr(2), acct(2, 0));
    b.insert_last(addr(1), acct(1, 0));
    assert!(a.same_as(&b));
    b.insert_last(addr(1), acct(3, 0));
    assert!(!a.same_as(&b));
    b.insert_first(addr(1), acct(1, 0));
    assert!(!a.same_as(&b));
}

#[test]
fn dump_waits_for_the_next_block() {
    let mut s = Session::new(4);
    assert!(matches!(s.step(SessionEvent::Command(ReplCommand::Dump)), SessionAction::MineBlock));
    assert_eq!(s.awaiting, Some(5));
    let a = s.step(SessionEvent::NewBlock { hash: word(1), number: 5 });
    assert!(matches!(a, SessionAction::CaptureBlock { completes_dump: true, .. }));
    assert_eq!(s.awaiting, None);
    assert_eq!(s.head, 5);
}

#[test]
fn unrelated_block_does_not_complete_dump() {
    let mut s = Session::new(4);
    s.step(SessionEvent::Command(ReplCommand::Dump));
    let a = s.step(SessionEvent::NewBlock { hash: word(1), number: 9 });
    assert!(matches!(a, SessionAction::CaptureBlock { completes_dump: false, .. }));
    assert_eq!(s.awaiting, Some(5));
    assert!(matches!(s.step(SessionEvent::WaitTimedOut), SessionAction::DumpFailed));
    assert_eq!(s.awaiting, None);
}

#[test]
fn commands_map_to_actions() {
    let mut s = Session::new(0);
    assert!(matches!(s.step(SessionEvent::Command(ReplCommand::Exit)), SessionAction::Stop));
    assert!(matches!(s.step(SessionEvent::CommandError), SessionAction::ReportError));
    let args = vec!["--port".to_string(), "0".to_string()];
    match s.step(SessionEvent::Command(ReplCommand::Anvil { args: args.clone() })) {
        SessionAction::RunNode { args: a } => assert_eq!(a, args),
        _ => panic!("expected a node run"),
    }
    assert!(matches!(s.step(SessionEvent::Command(ReplCommand::Cast { args })), SessionAction::Nothing));
}

fn pooled(id: u64, priority: u128) -> PooledTx {
    PooledTx { hash: word(id), priority }
}

#[test]
fn orderer_puts_higher_priority_first_and_keeps_arrival_on_ties() {
    let pending = vec![pooled(1, 5), pooled(2, 9), pooled(3, 5), pooled(4, 1), pooled(5, 9)];
    let r = order_pending(&pending);
    let ids: Vec<u64> = r.iter().map(|t| t.hash.w3).collect();
    assert_eq!(ids, vec![2, 5, 1, 3, 4]);
}

#[test]
fn orderer_is_deterministic() {
    let pending = vec![pooled(1, 3), pooled(2, 3), pooled(3, 7), pooled(4, 3)];
    let first = order_pending(&pending);
    let second = order_pending(&pending);
    assert_eq!(first, second);
    assert!(order_pending(&Vec::new()).is_empty());
}

#[test]
fn command_line_is_split_as_a_shell_would() {
    let r = command_words("anvil --port '85 45' \"a b\"").unwrap();
    assert_eq!(r, vec!["anvil".to_string(), "--port".to_string(), "85 45".to_string(), "a b".to_string()]);
}

#[test]
fn open_quote_is_refused() {
    assert_eq!(command_words("dump 'oops"), Err(CommandLineError::MismatchedQuotes));
}

#[test]
fn blank_line_is_refused() {
    assert_eq!(command_words("   "), Err(CommandLineError::Empty));
    assert_eq!(checked_words(Some(vec![])), Err(CommandLineError::Empty));
    assert_eq!(checked_words(None), Err(CommandLineError::MismatchedQuotes));
    assert_eq!(checked_words(Some(vec!["exit".to_string()])), Ok(vec!["exit".to_string()]));
}

#[test]
fn generate_records_a_block_that_changed_state() {
    let mut f = ExecutionFixture::new();
    let traces = vec![Ok(StateDiff { pre: vec![entry(1, 100, 0)], post: vec![entry(1, 90, 1)] })];
    let r = f.generate_execution_fixture(&traces, &header(), vec![vec![4]], vec![Some(vec![5])]);
    assert_eq!(r, Ok(()));
    assert_eq!(f.alloc.get(addr(1)), Some(acct(100, 0)));
    assert_eq!(f.out_alloc.get(addr(1)), Some(acct(90, 1)));
    assert_eq!(f.transactions, vec![vec![4]]);
    assert_eq!(f.result.receipts, vec![vec![5]]);
    assert_eq!(f.env.current_timestamp, 1_700_000_000);
}

#[test]
fn generate_refuses_unchanged_block_and_restores_the_fixture() {
    let mut f = ExecutionFixture::new();
    let traces = vec![Ok(StateDiff { pre: vec![entry(1, 100, 0)], post: vec![entry(1, 100, 0)] })];
    let r = f.generate_execution_fixture(&traces, &header(), vec![vec![4]], vec![Some(vec![5])]);
    assert_eq!(r, Err(FixtureError::PreAndPostStateEqual));
    assert_eq!(f.alloc.len(), 0);
    assert_eq!(f.out_alloc.len(), 0);
    assert!(f.transactions.is_empty());
    assert!(f.result.receipts.is_empty());
    assert_eq!(f.env.current_number, 0);
}

#[test]
fn generate_refuses_block_with_failed_trace() {
    let mut f = ExecutionFixture::new();
    let traces = vec![
        Ok(StateDiff { pre: vec![entry(1, 100, 0)], post: vec![entry(1, 90, 1)] }),
        Err(FixtureError::TraceFailed),
    ];
    let r = f.generate_execution_fixture(&traces, &header(), vec![vec![4], vec![6]], vec![None, None]);
    assert_eq!(r, Err(FixtureError::TraceFailed));
    assert_eq!(f.alloc.len(), 0);
    assert!(f.transactions.is_empty());
}

#[test]
fn ended_stream_fails_a_waiting_dump() {
    let mut s = Session::new(4);
    s.step(SessionEvent::Command(ReplCommand::Dump));
    assert!(matches!(s.step(SessionEvent::StreamEnded), SessionAction::DumpFailed));
    assert_eq!(s.awaiting, None);
    assert!(matches!(s.step(SessionEvent::StreamEnded), SessionAction::Nothing));
}

#[test]
fn code_or_storage_change_counts_as_state_change() {
    let mut with_code = acct(1, 0);
    with_code.code = vec![0x60, 0x00];
    let mut with_slot = acct(1, 0);
    with_slot.storage = vec![StorageSlot { key: word(1), value: word(2) }];
    assert!(acct(1, 0).same_as(&acct(1, 0)));
    assert!(!acct(1, 0).same_as(&with_code));
    assert!(!acct(1, 0).same_as(&with_slot));
    assert_eq!(with_code.copy(), with_code);

    let mut f = ExecutionFixture::new();
    let traces = vec![Ok(StateDiff {
        pre: vec![AllocEntry { address: addr(1), state: acct(1, 0) }],
        post: vec![AllocEntry { address: addr(1), state: with_slot.clone() }],
    })];
    let r = f.generate_execution_fixture(&traces, &header(), vec![vec![4]], vec![None]);
    assert_eq!(r, Ok(()));
    assert_eq!(f.out_alloc.get(addr(1)), Some(with_slot));
    assert!(f.result.receipts.is_empty());
}
