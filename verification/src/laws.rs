//! Laws the reconstruction obeys across functions: the compact-block
//! round trip and the boundary behaviors of an all-prefilled and an
//! all-by-short-id block.

use vstd::prelude::*;
use crate::types::Transaction;
use crate::short_id::{key0_of, key1_of, short_id_of, ShortId};
use crate::block::CompactBlockView;
use crate::reconstruct::{after_consume, candidate_map, count_prefilled_below, full, is_prefilled,
    lemma_count_split, lemma_sorted_gap, prefilled_tx_at, resolved_at, sid_index, sid_rank, slot};

verus! {

/// Consuming short ids other than `x` neither hides nor changes the
/// candidate bound to `x`.
proof fn lemma_after_consume_other(m: Map<ShortId, Transaction>, s: Seq<ShortId>, x: ShortId)
    requires
        !s.contains(x),
    ensures
        after_consume(m, s).contains_key(x) == m.contains_key(x),
        m.contains_key(x) ==> after_consume(m, s)[x] == m[x],
    decreases s.len(),
{
    if s.len() > 0 {
        assert(s[0] != x);
        if s.drop_first().contains(x) {
            let q = choose|q: int|
                0 <= q < s.drop_first().len() && (#[trigger] s.drop_first()[q]) == x;
            assert(s[q + 1] == x);
            assert(s.contains(x));
        }
        lemma_after_consume_other(m.remove(s[0]), s.drop_first(), x);
    }
}

/// With pairwise distinct short ids, a position resolves exactly when the
/// candidate index holds its short id, and to that candidate: the
/// consumption of earlier short ids cannot interfere.
pub proof fn lemma_resolved_distinct(m: Map<ShortId, Transaction>, sids: Seq<ShortId>, j: int)
    requires
        0 <= j < sids.len(),
        forall|a: int, b: int| 0 <= a < b < sids.len() ==> sids[a] != sids[b],
    ensures
        resolved_at(m, sids, j) == (if m.contains_key(sids[j]) {
            Some(m[sids[j]])
        } else {
            None::<Transaction>
        }),
{
    let prefix = sids.take(j);
    if prefix.contains(sids[j]) {
        let q = choose|q: int| 0 <= q < prefix.len() && (#[trigger] prefix[q]) == sids[j];
        assert(sids[q] == sids[j]);
        assert(false);
    }
    lemma_after_consume_other(m, prefix, sids[j]);
}

/// A block whose transactions are all prefilled reconstructs in full from
/// any candidate index at all — no mempool lookup can fail it — and every
/// position carries its prefilled transaction.
#[verifier::rlimit(100)]
pub proof fn lemma_all_prefilled(cb: CompactBlockView, m: Map<ShortId, Transaction>)
    requires
        cb.well_formed(),
        cb.short_ids.len() == 0,
    ensures
        full(cb, m),
        forall|i: int|
            0 <= i < cb.total() ==> slot(cb, m, i) == Some(
                (#[trigger] cb.prefilled_transactions[i]).transaction,
            ),
{
    let pf = cb.prefilled_transactions;
    let n = pf.len() as int;
    assert forall|i: int| 0 <= i < cb.total() implies slot(cb, m, i) == Some(
        (#[trigger] cb.prefilled_transactions[i]).transaction,
    ) by {
        lemma_sorted_gap(pf, 0, i);
        lemma_sorted_gap(pf, i, n - 1);
        assert(pf[n - 1].index < n);
        assert(pf[i].index == i);
        assert(is_prefilled(cb, i));
        let w = choose|k: int| 0 <= k < pf.len() && (#[trigger] pf[k]).index == i;
        if w < i {
            lemma_sorted_gap(pf, w, i);
            assert(false);
        } else if w > i {
            lemma_sorted_gap(pf, i, w);
            assert(false);
        }
        assert(prefilled_tx_at(cb, i) == pf[i].transaction);
    }
    assert forall|i: int| 0 <= i < cb.total() implies (#[trigger] slot(cb, m, i)) is Some by {
        assert(slot(cb, m, i) == Some(cb.prefilled_transactions[i].transaction));
    }
    assert(full(cb, m));
}

/// A block with only the cellbase prefilled, at position zero, and
/// pairwise distinct short ids reconstructs in full exactly when the
/// candidate index holds every short id; position `i > 0` then carries
/// the candidate bound to its short id.
#[verifier::rlimit(100)]
pub proof fn lemma_only_cellbase_prefilled(cb: CompactBlockView, m: Map<ShortId, Transaction>)
    requires
        cb.well_formed(),
        cb.prefilled_transactions.len() == 1,
        cb.prefilled_transactions[0].index == 0,
        forall|a: int, b: int| 0 <= a < b < cb.short_ids.len() ==> cb.short_ids[a] != cb.short_ids[b],
    ensures
        full(cb, m) <==> (forall|j: int|
            0 <= j < cb.short_ids.len() ==> m.contains_key(#[trigger] cb.short_ids[j])),
        slot(cb, m, 0) == Some(cb.prefilled_transactions[0].transaction),
        forall|i: int|
            1 <= i < cb.total() ==> slot(cb, m, i) == (if m.contains_key(
                #[trigger] cb.short_ids[i - 1],
            ) {
                Some(m[cb.short_ids[i - 1]])
            } else {
                None::<Transaction>
            }),
{
    let pf = cb.prefilled_transactions;
    assert(is_prefilled(cb, 0));
    let w0 = choose|k: int| 0 <= k < pf.len() && (#[trigger] pf[k]).index == 0;
    assert(w0 == 0);
    assert(slot(cb, m, 0) == Some(pf[0].transaction));
    assert forall|i: int| 1 <= i < cb.total() implies slot(cb, m, i) == (if m.contains_key(
        #[trigger] cb.short_ids[i - 1],
    ) {
        Some(m[cb.short_ids[i - 1]])
    } else {
        None::<Transaction>
    }) by {
        if is_prefilled(cb, i) {
            let w = choose|k: int| 0 <= k < pf.len() && (#[trigger] pf[k]).index == i;
            assert(w == 0);
            assert(false);
        }
        lemma_count_split(pf, i, 1);
        assert(sid_rank(cb, i) == i - 1);
        lemma_resolved_distinct(m, cb.short_ids, i - 1);
    }
    if forall|j: int| 0 <= j < cb.short_ids.len() ==> m.contains_key(#[trigger] cb.short_ids[j]) {
        assert forall|i: int| 0 <= i < cb.total() implies (#[trigger] slot(cb, m, i)) is Some by {
            if i >= 1 {
                assert(m.contains_key(cb.short_ids[i - 1]));
            }
        }
    }
    if full(cb, m) {
        assert forall|j: int| 0 <= j < cb.short_ids.len() implies m.contains_key(
            #[trigger] cb.short_ids[j],
        ) by {
            assert(cb.short_ids[j + 1 - 1] == cb.short_ids[j]);
            assert(slot(cb, m, j + 1) is Some);
        }
    }
}

/// A candidate list that holds `tx`, and in which every transaction
/// sharing `tx`'s short id is `tx` itself, indexes to `tx` under its
/// short id.
proof fn lemma_sid_index_binds(key0: u64, key1: u64, txs: Seq<Transaction>, tx: Transaction)
    requires
        txs.contains(tx),
        forall|q: int|
            0 <= q < txs.len() && short_id_of(key0, key1, (#[trigger] txs[q]).hash) == short_id_of(
                key0,
                key1,
                tx.hash,
            ) ==> txs[q] == tx,
    ensures
        sid_index(key0, key1, txs).contains_key(short_id_of(key0, key1, tx.hash)),
        sid_index(key0, key1, txs)[short_id_of(key0, key1, tx.hash)] == tx,
    decreases txs.len(),
{
    let sid = short_id_of(key0, key1, tx.hash);
    let n = txs.len() as int;
    if txs.last() == tx {
    } else {
        assert(short_id_of(key0, key1, txs.last().hash) != sid) by {
            if short_id_of(key0, key1, txs[n - 1].hash) == sid {
                assert(txs[n - 1] == tx);
            }
        }
        let q = choose|q: int| 0 <= q < txs.len() && txs[q] == tx;
        assert(q < n - 1);
        assert(txs.drop_last()[q] == tx);
        assert(txs.drop_last().contains(tx));
        lemma_sid_index_binds(key0, key1, txs.drop_last(), tx);
    }
}

/// The compact-block round trip: a well-formed compact block built from a
/// commit-transaction list, given candidates that include every elided
/// transaction — the missing set handed back in a `BlockTransactions`
/// reply together with the mempool — and in which no stranger shares an
/// elided transaction's short id, reconstructs in full, and every position
/// carries the sender's original transaction.
#[verifier::rlimit(100)]
pub proof fn lemma_compact_block_round_trip(
    cb: CompactBlockView,
    orig: Seq<Transaction>,
    cands: Seq<Transaction>,
)
    requires
        cb.well_formed(),
        orig.len() == cb.total(),
        // the prefilled entries carry the original transactions
        forall|k: int|
            0 <= k < cb.prefilled_transactions.len() ==> (
            #[trigger] cb.prefilled_transactions[k]).transaction == orig[cb.prefilled_transactions[k].index as int],
        // each elided position's short id is its original transaction's
        forall|i: int|
            0 <= i < cb.total() && !is_prefilled(cb, i) ==> #[trigger] cb.short_ids[sid_rank(
                cb,
                i,
            )] == short_id_of(
                key0_of(cb.header.nonce, cb.nonce),
                key1_of(cb.header.nonce, cb.nonce),
                orig[i].hash,
            ),
        forall|a: int, b: int| 0 <= a < b < cb.short_ids.len() ==> cb.short_ids[a] != cb.short_ids[b],
        // the candidates hold every elided original transaction
        forall|i: int|
            0 <= i < cb.total() && !is_prefilled(cb, i) ==> cands.contains(#[trigger] orig[i]),
        // and no candidate masquerades under an elided short id
        forall|q: int, i: int|
            0 <= q < cands.len() && 0 <= i < cb.total() && !is_prefilled(cb, i) && short_id_of(
                key0_of(cb.header.nonce, cb.nonce),
                key1_of(cb.header.nonce, cb.nonce),
                (#[trigger] cands[q]).hash,
            ) == short_id_of(
                key0_of(cb.header.nonce, cb.nonce),
                key1_of(cb.header.nonce, cb.nonce),
                (#[trigger] orig[i]).hash,
            ) ==> cands[q] == orig[i],
    ensures
        full(cb, candidate_map(cb, cands)),
        forall|i: int|
            0 <= i < cb.total() ==> slot(cb, candidate_map(cb, cands), i) == Some(
                #[trigger] orig[i],
            ),
{
    let key0 = key0_of(cb.header.nonce, cb.nonce);
    let key1 = key1_of(cb.header.nonce, cb.nonce);
    let m = candidate_map(cb, cands);
    let pf = cb.prefilled_transactions;
    assert forall|i: int| 0 <= i < cb.total() implies slot(cb, m, i) == Some(
        #[trigger] orig[i],
    ) by {
        if is_prefilled(cb, i) {
            let w = choose|k: int| 0 <= k < pf.len() && (#[trigger] pf[k]).index == i;
            assert(pf[w].transaction == orig[i]);
            assert(prefilled_tx_at(cb, i) == orig[i]);
        } else {
            let sid = cb.short_ids[sid_rank(cb, i)];
            assert(sid == short_id_of(key0, key1, orig[i].hash));
            lemma_sid_index_binds(key0, key1, cands, orig[i]);
            assert(m.contains_key(sid) && m[sid] == orig[i]);
            lemma_rank_in_range(cb, i);
            lemma_resolved_distinct(m, cb.short_ids, sid_rank(cb, i));
        }
    }
    assert(full(cb, m));
}

/// The count of prefilled entries below `i` is bounded by the entries and
/// never negative.
proof fn lemma_count_bounds(pf: Seq<crate::block::PrefilledTransaction>, i: int)
    ensures
        0 <= count_prefilled_below(pf, i) <= pf.len(),
    decreases pf.len(),
{
    if pf.len() > 0 {
        lemma_count_bounds(pf.drop_last(), i);
    }
}

/// In a well-formed compact block, the short-id rank of a non-prefilled
/// position lies within the short ids.
#[verifier::rlimit(100)]
proof fn lemma_rank_in_range(cb: CompactBlockView, i: int)
    requires
        cb.well_formed(),
        0 <= i < cb.total(),
        !is_prefilled(cb, i),
    ensures
        0 <= sid_rank(cb, i) < cb.short_ids.len(),
{
    let pf = cb.prefilled_transactions;
    let n = pf.len() as int;
    // count the prefilled entries below i exactly: they are the a with
    // pf[a].index < i, a prefix of the entries by sortedness
    let a = count_below_split(pf, i);
    assert(count_prefilled_below(pf, i) == a);
    // a never exceeds i: the a entries below i have increasing indices
    if a > 0 {
        lemma_sorted_gap(pf, 0, a - 1);
        assert(pf[a - 1].index < i);
        assert(a <= i);
    }
    // rank = i - a; show i - a < short_ids.len(), i.e. i < a + S
    if sid_rank(cb, i) >= cb.short_ids.len() {
        // then a <= i - S, so entry a exists (a < n since i < n + S means
        // i - S < n) and pf[a].index >= i; sortedness squeezes
        // pf[a].index <= S + a <= i, hence pf[a].index == i
        assert(a < n);
        assert(pf[a].index >= i);
        lemma_sorted_gap(pf, a, n - 1);
        assert(pf[n - 1].index < cb.total());
        assert(pf[a].index <= cb.short_ids.len() + a);
        assert(pf[a].index == i);
        assert(is_prefilled(cb, i));
        assert(false);
    }
    lemma_count_bounds(pf, i);
}

/// The position `a` splitting the sorted prefilled entries at index `i`:
/// entries before `a` sit below `i`, entries from `a` on at or above it,
/// and exactly `a` of them count below `i`.
#[verifier::rlimit(100)]
proof fn count_below_split(pf: Seq<crate::block::PrefilledTransaction>, i: int) -> (a: int)
    requires
        crate::block::pf_sorted(pf),
    ensures
        0 <= a <= pf.len(),
        forall|k: int| 0 <= k < a ==> (#[trigger] pf[k]).index < i,
        forall|k: int| a <= k < pf.len() ==> (#[trigger] pf[k]).index >= i,
        count_prefilled_below(pf, i) == a,
    decreases pf.len(),
{
    if pf.len() == 0 {
        lemma_count_split(pf, i, 0);
        0
    } else {
        let n = pf.len() as int;
        if pf[n - 1].index < i {
            assert forall|k: int| 0 <= k < n implies (#[trigger] pf[k]).index < i by {
                if k < n - 1 {
                    lemma_sorted_gap(pf, k, n - 1);
                }
            }
            lemma_count_split(pf, i, n);
            n
        } else {
            assert(crate::block::pf_sorted(pf.drop_last())) by {
                assert(forall|k: int|
                    0 <= k < n - 1 ==> (#[trigger] pf.drop_last()[k]) == pf[k]);
            }
            let prev = count_below_split(pf.drop_last(), i);
            assert(forall|k: int|
                0 <= k < n - 1 ==> (#[trigger] pf.drop_last()[k]) == pf[k]);
            assert forall|k: int| prev <= k < n implies (#[trigger] pf[k]).index >= i by {
                if k < n - 1 {
                    assert(pf.drop_last()[k].index >= i);
                }
            }
            assert forall|k: int| 0 <= k < prev implies (#[trigger] pf[k]).index < i by {
                assert(pf.drop_last()[k] == pf[k]);
                assert(pf.drop_last()[k].index < i);
            }
            lemma_count_split(pf, i, prev);
            prev
        }
    }
}

} // verus!
