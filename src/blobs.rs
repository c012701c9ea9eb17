//! Blob-hash extraction for batch-submission transactions.
//!
//! Every blob slot of every call transaction advances a running index, so the
//! index of an emitted hash is its absolute position in the stream of blob
//! slots, whether or not earlier slots were attributed to the batcher.
use vstd::prelude::*;
use crate::primitives::{Address, Word};

verus! {

/// The envelope type of a transaction.
#[derive(Clone, Copy, Debug, PartialEq, Eq, Structural)]
pub enum TxType {
    Legacy,
    Eip2930,
    Eip1559,
    Eip4844,
    Other,
}

/// What the extractor reads of one transaction.
#[derive(Clone, Debug)]
pub struct BlobTx {
    pub tx_type: TxType,
    /// The call target; `None` for a contract creation.
    pub to: Option<Address>,
    /// The recovered signer (the zero address where recovery failed).
    pub signer: Address,
    /// Whether the transaction carries call data.
    pub has_calldata: bool,
    /// The versioned blob hashes (empty unless the type carries blobs).
    pub blob_hashes: Vec<Word>,
}

/// A blob hash with its absolute position among all blob slots.
#[derive(Clone, Copy, Debug, PartialEq, Eq, Structural)]
pub struct IndexedBlobHash {
    pub hash: Word,
    pub index: u64,
}

/// The number of blob slots that a transaction occupies in the stream.
pub open spec fn slots_of(tx: BlobTx) -> nat {
    if tx.tx_type == TxType::Eip4844 && tx.to.is_some() {
        tx.blob_hashes@.len()
    } else {
        0
    }
}

/// The blob slots occupied by all of `txs`.
pub open spec fn slots_total(txs: Seq<BlobTx>) -> nat
    decreases txs.len(),
{
    if txs.len() == 0 {
        0
    } else {
        slots_total(txs.drop_last()) + slots_of(txs.last())
    }
}

/// Whether a transaction's blob hashes are attributed to the batcher.
pub open spec fn attributed(batcher: Address, signer: Address, tx: BlobTx) -> bool {
    tx.tx_type == TxType::Eip4844 && tx.to == Some(batcher) && tx.signer == signer
}

/// The hashes of `tx`, indexed from `start`.
pub open spec fn indexed_from(tx: BlobTx, start: nat) -> Seq<IndexedBlobHash> {
    Seq::new(
        tx.blob_hashes@.len(),
        |j: int| IndexedBlobHash { hash: tx.blob_hashes@[j], index: (start + j) as u64 },
    )
}

/// The indexed hashes to fetch for `txs`.
pub open spec fn extracted(batcher: Address, signer: Address, txs: Seq<BlobTx>) -> Seq<IndexedBlobHash>
    decreases txs.len(),
{
    if txs.len() == 0 {
        seq![]
    } else {
        let prefix = txs.drop_last();
        let tx = txs.last();
        extracted(batcher, signer, prefix) + if attributed(batcher, signer, tx) {
            indexed_from(tx, slots_total(prefix))
        } else {
            seq![]
        }
    }
}

/// The absolute slot positions of the hashes that `extracted` emits.
pub open spec fn positions(batcher: Address, signer: Address, txs: Seq<BlobTx>) -> Seq<nat>
    decreases txs.len(),
{
    if txs.len() == 0 {
        seq![]
    } else {
        let prefix = txs.drop_last();
        let tx = txs.last();
        positions(batcher, signer, prefix) + if attributed(batcher, signer, tx) {
            Seq::new(tx.blob_hashes@.len(), |j: int| slots_total(prefix) + j as nat)
        } else {
            seq![]
        }
    }
}

/// Collects, in order, the blob hashes of the transactions that `signer` sent
/// to `batcher`, each with its absolute position among the blob slots of all
/// call transactions of `txs`.
pub fn extract_blob_data(batcher: Address, signer: Address, txs: &Vec<BlobTx>) -> (r: Vec<IndexedBlobHash>)
    requires
        slots_total(txs@) <= u64::MAX,
    ensures
        r@ == extracted(batcher, signer, txs@),
        r@.len() == positions(batcher, signer, txs@).len(),
        forall|i: int| 0 <= i < r@.len() ==> r@[i].index as nat == #[trigger] positions(batcher, signer, txs@)[i],
{
    proof { lemma_positions_are_indices(batcher, signer, txs@); }
    let mut index: u64 = 0;
    let mut hashes: Vec<IndexedBlobHash> = Vec::new();
    let mut i: usize = 0;
    while i < txs.len()
        invariant
            i <= txs@.len(),
            slots_total(txs@) <= u64::MAX,
            index as nat == slots_total(txs@.subrange(0, i as int)),
            hashes@ == extracted(batcher, signer, txs@.subrange(0, i as int)),
        decreases txs.len() - i,
    {
        proof {
            lemma_slots_prefix(txs@, i as int + 1);
            assert(txs@.subrange(0, i as int + 1).drop_last() =~= txs@.subrange(0, i as int));
        }
        let tx = &txs[i];
        let is_blob_type = tx.tx_type == TxType::Eip4844;
        match tx.to {
            None => {},
            Some(to) => {
                if to != batcher || tx.signer != signer {
                    if is_blob_type {
                        index = index + tx.blob_hashes.len() as u64;
                    }
                } else if is_blob_type {
                    let ghost start = hashes@;
                    let mut j: usize = 0;
                    while j < tx.blob_hashes.len()
                        invariant
                            j <= tx.blob_hashes@.len(),
                            index as nat == slots_total(txs@.subrange(0, i as int)) + j,
                            slots_total(txs@.subrange(0, i as int)) + tx.blob_hashes@.len() <= u64::MAX,
                            hashes@ == start + indexed_from(*tx, slots_total(txs@.subrange(0, i as int))).subrange(0, j as int),
                        decreases tx.blob_hashes.len() - j,
                    {
                        hashes.push(IndexedBlobHash { hash: tx.blob_hashes[j], index });
                        index = index + 1;
                        j = j + 1;
                        assert(hashes@ =~= start + indexed_from(*tx, slots_total(txs@.subrange(0, i as int))).subrange(0, j as int));
                    }
                    assert(indexed_from(*tx, slots_total(txs@.subrange(0, i as int))).subrange(0, j as int)
                        =~= indexed_from(*tx, slots_total(txs@.subrange(0, i as int))));
                }
            },
        }
        i = i + 1;
        proof {
            assert(hashes@ =~= extracted(batcher, signer, txs@.subrange(0, i as int)));
        }
    }
    assert(txs@.subrange(0, txs@.len() as int) =~= txs@);
    hashes
}

/// The slots of a prefix never exceed those of the whole list.
pub proof fn lemma_slots_prefix(txs: Seq<BlobTx>, n: int)
    requires
        0 <= n <= txs.len(),
    ensures
        slots_total(txs.subrange(0, n)) <= slots_total(txs),
    decreases txs.len() - n,
{
    if n < txs.len() {
        lemma_slots_prefix(txs, n + 1);
        assert(txs.subrange(0, n + 1).drop_last() =~= txs.subrange(0, n));
    } else {
        assert(txs.subrange(0, n) =~= txs);
    }
}

/// Every emitted position lies below the number of blob slots of the whole
/// list, and positions strictly increase, so no two emitted hashes share one.
pub proof fn lemma_index_continuity(batcher: Address, signer: Address, txs: Seq<BlobTx>)
    ensures
        forall|i: int| 0 <= i < positions(batcher, signer, txs).len()
            ==> positions(batcher, signer, txs)[i] < slots_total(txs),
        forall|i: int, j: int| 0 <= i < j < positions(batcher, signer, txs).len()
            ==> positions(batcher, signer, txs)[i] < positions(batcher, signer, txs)[j],
    decreases txs.len(),
{
    if txs.len() > 0 {
        let prefix = txs.drop_last();
        let tx = txs.last();
        let head = positions(batcher, signer, prefix);
        lemma_index_continuity(batcher, signer, prefix);
        if attributed(batcher, signer, tx) {
            assert(tx.blob_hashes@.len() == slots_of(tx));
        }
        assert forall|i: int| 0 <= i < head.len() implies head[i] < slots_total(prefix) by {}
    }
}

/// The emitted hashes are as many as the emitted positions, and where all
/// slots fit in a `u64` each index is its position.
pub proof fn lemma_positions_are_indices(batcher: Address, signer: Address, txs: Seq<BlobTx>)
    ensures
        extracted(batcher, signer, txs).len() == positions(batcher, signer, txs).len(),
        slots_total(txs) <= u64::MAX ==> forall|i: int| 0 <= i < extracted(batcher, signer, txs).len()
            ==> extracted(batcher, signer, txs)[i].index as nat == #[trigger] positions(batcher, signer, txs)[i],
    decreases txs.len(),
{
    if txs.len() > 0 {
        let prefix = txs.drop_last();
        let tx = txs.last();
        lemma_positions_are_indices(batcher, signer, prefix);
        lemma_index_continuity(batcher, signer, txs);
        lemma_slots_prefix(txs, txs.len() - 1);
        assert(txs.subrange(0, txs.len() - 1) =~= prefix);
        if attributed(batcher, signer, tx) {
            assert(tx.blob_hashes@.len() == slots_of(tx));
        }
    }
}

/// The hashes of an indexed list, in order.
pub open spec fn hashes_of(s: Seq<IndexedBlobHash>) -> Seq<Word> {
    s.map_values(|h: IndexedBlobHash| h.hash)
}

/// Extending a list never removes emitted positions.
proof fn lemma_positions_grow(batcher: Address, signer: Address, a: Seq<BlobTx>, b: Seq<BlobTx>)
    ensures
        positions(batcher, signer, a).len() <= positions(batcher, signer, a + b).len(),
    decreases b.len(),
{
    if b.len() == 0 {
        assert(a + b =~= a);
    } else {
        assert((a + b).drop_last() =~= a + b.drop_last());
        lemma_positions_grow(batcher, signer, a, b.drop_last());
    }
}

/// A transaction that does not go to the batcher, wherever it stands in the
/// list, emits no hash: the emitted hashes are those of the list without it.
/// It occupies its blob slots, so every position emitted after it grows by
/// their number, and those before it stay.
pub proof fn lemma_unattributed_skip(
    batcher: Address,
    signer: Address,
    a: Seq<BlobTx>,
    tx: BlobTx,
    b: Seq<BlobTx>,
)
    requires
        tx.to != Some(batcher),
    ensures
        hashes_of(extracted(batcher, signer, a.push(tx) + b)) == hashes_of(extracted(batcher, signer, a + b)),
        positions(batcher, signer, a.push(tx) + b).len() == positions(batcher, signer, a + b).len(),
        forall|i: int| 0 <= i < positions(batcher, signer, a + b).len()
            ==> #[trigger] positions(batcher, signer, a.push(tx) + b)[i] == positions(batcher, signer, a + b)[i]
                + if i < positions(batcher, signer, a).len() { 0 } else { slots_of(tx) },
        slots_total(a.push(tx) + b) == slots_total(a + b) + slots_of(tx),
    decreases b.len(),
{
    let c = a.push(tx) + b;
    let d = a + b;
    if b.len() == 0 {
        assert(c =~= a.push(tx));
        assert(d =~= a);
        assert(c.drop_last() =~= a);
        assert(hashes_of(extracted(batcher, signer, c)) =~= hashes_of(extracted(batcher, signer, d)));
    } else {
        let b0 = b.drop_last();
        assert(c.drop_last() =~= a.push(tx) + b0);
        assert(d.drop_last() =~= a + b0);
        assert(c.last() == b.last() && d.last() == b.last());
        lemma_unattributed_skip(batcher, signer, a, tx, b0);
        lemma_positions_grow(batcher, signer, a, b0);
        lemma_positions_are_indices(batcher, signer, a.push(tx) + b0);
        lemma_positions_are_indices(batcher, signer, a + b0);
        let hc = hashes_of(extracted(batcher, signer, a.push(tx) + b0));
        let hd = hashes_of(extracted(batcher, signer, a + b0));
        assert(hc == hd);
        assert(hashes_of(extracted(batcher, signer, c)) =~= hashes_of(extracted(batcher, signer, d))) by {
            assert(hashes_of(extracted(batcher, signer, c)).len() == hashes_of(extracted(batcher, signer, d)).len());
            assert forall|k: int| 0 <= k < hashes_of(extracted(batcher, signer, c)).len() implies
                hashes_of(extracted(batcher, signer, c))[k] == hashes_of(extracted(batcher, signer, d))[k] by {
                if k < hc.len() {
                    assert(hashes_of(extracted(batcher, signer, c))[k] == hc[k]);
                    assert(hashes_of(extracted(batcher, signer, d))[k] == hd[k]);
                }
            }
        }
    }
}

} // verus!
