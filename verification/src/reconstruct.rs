//! Block reconstruction: assembling a full block from a compact block and
//! a set of candidate transactions.
//!
//! The commit-transaction list a compact block stands for is rebuilt in
//! position order: a position carrying a prefilled transaction takes it;
//! every other position consumes the next short id, in order, and resolves
//! it through a candidate index keyed by salted short id. A resolved
//! candidate is consumed — a later occurrence of the same short id no
//! longer finds it. Unresolved positions are reported as missing.

use vstd::prelude::*;
use crate::types::Transaction;
use crate::short_id::{key0_of, key1_of, short_id_of, short_transaction_id,
    short_transaction_id_keys, ShortId};
use crate::block::{pf_sorted, copy_proposal_ids, copy_uncles, uncles_view, Block, CompactBlock,
    CompactBlockView, PrefilledTransaction};
use crate::sid_map::SidMap;

verus! {

/// The candidate index built from `txs` in order, keyed by short id under
/// `(key0, key1)`; on colliding short ids the last writer wins.
pub open spec fn sid_index(key0: u64, key1: u64, txs: Seq<Transaction>) -> Map<
    ShortId,
    Transaction,
>
    decreases txs.len(),
{
    if txs.len() == 0 {
        Map::empty()
    } else {
        sid_index(key0, key1, txs.drop_last()).insert(
            short_id_of(key0, key1, txs.last().hash),
            txs.last(),
        )
    }
}

/// The candidate index a compact block's reconstruction works against.
pub open spec fn candidate_map(cb: CompactBlockView, txs: Seq<Transaction>) -> Map<
    ShortId,
    Transaction,
> {
    sid_index(key0_of(cb.header.nonce, cb.nonce), key1_of(cb.header.nonce, cb.nonce), txs)
}

/// The candidate index left after the short ids of `sids` have been
/// consumed from `m`, in order.
pub open spec fn after_consume(m: Map<ShortId, Transaction>, sids: Seq<ShortId>) -> Map<
    ShortId,
    Transaction,
>
    decreases sids.len(),
{
    if sids.len() == 0 {
        m
    } else {
        after_consume(m.remove(sids[0]), sids.drop_first())
    }
}

/// What the `j`-th short id of `sids` resolves to, after the short ids
/// before it have consumed their candidates.
pub open spec fn resolved_at(m: Map<ShortId, Transaction>, sids: Seq<ShortId>, j: int) -> Option<
    Transaction,
> {
    let mj = after_consume(m, sids.take(j));
    if mj.contains_key(sids[j]) {
        Some(mj[sids[j]])
    } else {
        None
    }
}

/// How many prefilled entries occupy positions before `i`.
pub open spec fn count_prefilled_below(pf: Seq<PrefilledTransaction>, i: int) -> int
    decreases pf.len(),
{
    if pf.len() == 0 {
        0
    } else {
        count_prefilled_below(pf.drop_last(), i) + if pf.last().index < i {
            1int
        } else {
            0int
        }
    }
}

/// Whether position `i` carries a prefilled transaction.
pub open spec fn is_prefilled(cb: CompactBlockView, i: int) -> bool {
    exists|k: int|
        0 <= k < cb.prefilled_transactions.len() && (#[trigger] cb.prefilled_transactions[k]).index
            == i
}

/// The prefilled transaction at position `i`.
pub open spec fn prefilled_tx_at(cb: CompactBlockView, i: int) -> Transaction {
    cb.prefilled_transactions[choose|k: int|
        0 <= k < cb.prefilled_transactions.len() && (#[trigger] cb.prefilled_transactions[k]).index
            == i].transaction
}

/// The number of short-id positions before position `i`: position `i`,
/// when not prefilled, consumes the short id of this rank.
pub open spec fn sid_rank(cb: CompactBlockView, i: int) -> int {
    i - count_prefilled_below(cb.prefilled_transactions, i)
}

/// What reconstruction against candidates `m` puts at position `i`.
pub open spec fn slot(cb: CompactBlockView, m: Map<ShortId, Transaction>, i: int) -> Option<
    Transaction,
> {
    if is_prefilled(cb, i) {
        Some(prefilled_tx_at(cb, i))
    } else {
        resolved_at(m, cb.short_ids, sid_rank(cb, i))
    }
}

/// Every position resolves.
pub open spec fn full(cb: CompactBlockView, m: Map<ShortId, Transaction>) -> bool {
    forall|i: int| 0 <= i < cb.total() ==> (#[trigger] slot(cb, m, i)) is Some
}

/// The reconstructed block: the compact block's header, uncles and
/// proposal ids, and at every commit position exactly what reconstruction
/// resolves there.
pub open spec fn block_matches(
    cb: CompactBlockView,
    m: Map<ShortId, Transaction>,
    b: crate::block::BlockView,
) -> bool {
    &&& b.header == cb.header
    &&& b.uncles == cb.uncles
    &&& b.proposal_transactions == cb.proposal_transactions
    &&& b.commit_transactions.len() == cb.total()
    &&& forall|i: int|
        0 <= i < cb.total() ==> slot(cb, m, i) == Some(#[trigger] b.commit_transactions[i])
}

/// The missing list: strictly increasing, and it holds exactly the
/// positions reconstruction leaves unresolved.
pub open spec fn missing_ok(
    cb: CompactBlockView,
    m: Map<ShortId, Transaction>,
    miss: Seq<usize>,
) -> bool {
    &&& miss.len() > 0
    &&& forall|q: int| 0 < q < miss.len() ==> miss[q - 1] < (#[trigger] miss[q])
    &&& forall|q: int|
        0 <= q < miss.len() ==> 0 <= (#[trigger] miss[q]) < cb.total() && slot(
            cb,
            m,
            miss[q] as int,
        ) is None
    &&& forall|p: int|
        0 <= p < cb.total() && (#[trigger] slot(cb, m, p)) is None ==> exists|q: int|
            0 <= q < miss.len() && (#[trigger] miss[q]) as int == p
}

/// Exactly one of the two outcomes: a block whose commit transactions are
/// the resolved slots, or the exact list of unresolved positions.
pub open spec fn reconstruct_post(
    cb: CompactBlockView,
    m: Map<ShortId, Transaction>,
    r: (Option<Block>, Option<Vec<usize>>),
) -> bool {
    match r {
        (Some(b), None) => full(cb, m) && block_matches(cb, m, b@),
        (None, Some(miss)) => !full(cb, m) && missing_ok(cb, m, miss@),
        _ => false,
    }
}

/// Consuming one more short id removes it from the remaining candidates.
proof fn lemma_after_consume_push(m: Map<ShortId, Transaction>, s: Seq<ShortId>, x: ShortId)
    ensures
        after_consume(m, s.push(x)) == after_consume(m, s).remove(x),
    decreases s.len(),
{
    if s.len() == 0 {
        assert(s.push(x)[0] == x);
        assert(s.push(x).drop_first() =~= Seq::<ShortId>::empty());
        assert(after_consume(m, s.push(x)) == after_consume(m.remove(x), s.push(x).drop_first()));
    } else {
        assert(s.push(x)[0] == s[0]);
        assert(s.push(x).drop_first() =~= s.drop_first().push(x));
        lemma_after_consume_push(m.remove(s[0]), s.drop_first(), x);
    }
}

/// Strictly increasing indices grow at least with their positions.
pub proof fn lemma_sorted_gap(pf: Seq<PrefilledTransaction>, a: int, b: int)
    requires
        pf_sorted(pf),
        0 <= a < pf.len(),
        a <= b < pf.len(),
    ensures
        pf[a].index + (b - a) <= pf[b].index,
    decreases b - a,
{
    if a < b {
        lemma_sorted_gap(pf, a, b - 1);
        assert(pf[b - 1].index < pf[b].index);
    }
}

/// When all earlier prefilled entries sit below `i` and all later ones at
/// or above it, exactly the earlier ones count.
pub proof fn lemma_count_split(pf: Seq<PrefilledTransaction>, i: int, a: int)
    requires
        0 <= a <= pf.len(),
        forall|k: int| 0 <= k < a ==> (#[trigger] pf[k]).index < i,
        forall|k: int| a <= k < pf.len() ==> (#[trigger] pf[k]).index >= i,
    ensures
        count_prefilled_below(pf, i) == a,
    decreases pf.len(),
{
    if pf.len() > 0 {
        let n = pf.len() as int;
        if a == n {
            assert(pf[n - 1].index < i);
            lemma_count_split(pf.drop_last(), i, a - 1);
        } else {
            assert(pf[n - 1].index >= i);
            lemma_count_split(pf.drop_last(), i, a);
        }
    }
}

/// Reconstructs the commit-transaction list of `cb` from the supplied
/// transactions, the mempool snapshot, and the prefilled entries.
///
/// Candidates are indexed in order — first `transactions`, then
/// `pool_txs`, later writers winning colliding short ids — and each
/// resolved candidate is consumed. On success the block is returned; else
/// the strictly increasing list of unresolved positions.
pub fn reconstruct_block(
    cb: &CompactBlock,
    transactions: Vec<Transaction>,
    pool_txs: &Vec<Transaction>,
) -> (r: (Option<Block>, Option<Vec<usize>>))
    requires
        cb@.well_formed(),
    ensures
        reconstruct_post(cb@, candidate_map(cb@, transactions@ + pool_txs@), r),
{
    let ghost all_txs: Seq<Transaction> = transactions@ + pool_txs@;
    let ghost m0: Map<ShortId, Transaction> = candidate_map(cb@, all_txs);
    let (key0, key1) = short_transaction_id_keys(cb.header.nonce, cb.nonce);

    // index the candidates by short id, in order
    let mut cand = SidMap::new();
    let mut t: usize = 0;
    while t < transactions.len()
        invariant
            cand.wf(),
            t <= transactions@.len(),
            key0 == key0_of(cb@.header.nonce, cb@.nonce),
            key1 == key1_of(cb@.header.nonce, cb@.nonce),
            cand@ == sid_index(key0, key1, transactions@.take(t as int)),
        decreases transactions@.len() - t,
    {
        let tx = transactions[t];
        let sid = short_transaction_id(key0, key1, &tx.hash);
        cand.insert(sid, tx);
        proof {
            assert(transactions@.take(t as int + 1).drop_last() =~= transactions@.take(t as int));
            assert(transactions@.take(t as int + 1).last() == tx);
        }
        t += 1;
    }
    assert(transactions@.take(transactions@.len() as int) =~= transactions@);
    let mut p: usize = 0;
    while p < pool_txs.len()
        invariant
            cand.wf(),
            p <= pool_txs@.len(),
            key0 == key0_of(cb@.header.nonce, cb@.nonce),
            key1 == key1_of(cb@.header.nonce, cb@.nonce),
            cand@ == sid_index(key0, key1, transactions@ + pool_txs@.take(p as int)),
        decreases pool_txs@.len() - p,
    {
        let tx = pool_txs[p];
        let sid = short_transaction_id(key0, key1, &tx.hash);
        cand.insert(sid, tx);
        proof {
            let s1 = transactions@ + pool_txs@.take(p as int + 1);
            assert(s1.drop_last() =~= transactions@ + pool_txs@.take(p as int));
            assert(s1.last() == tx);
        }
        p += 1;
    }
    proof {
        assert(transactions@ + pool_txs@.take(pool_txs@.len() as int) =~= all_txs);
        assert(cand@ == m0);
        assert(after_consume(m0, cb@.short_ids.take(0)) == m0);
    }

    // walk the commit positions in order
    let pref_len = cb.prefilled_transactions.len();
    let sid_len = cb.short_ids.len();
    assert(pref_len + sid_len as int == cb@.total());
    let total = pref_len + sid_len;
    let mut out: Vec<Option<Transaction>> = Vec::new();
    let mut next_pref: usize = 0;
    let mut next_sid: usize = 0;
    while out.len() < total
        invariant
            cb@.well_formed(),
            cand.wf(),
            total == cb@.total(),
            pref_len == cb@.prefilled_transactions.len(),
            sid_len == cb@.short_ids.len(),
            out@.len() <= total,
            next_pref <= pref_len,
            next_sid <= sid_len,
            out@.len() == next_pref + next_sid as int,
            forall|k: int|
                0 <= k < next_pref ==> (#[trigger] cb@.prefilled_transactions[k]).index
                    < out@.len(),
            forall|k: int|
                next_pref <= k < pref_len ==> (#[trigger] cb@.prefilled_transactions[k]).index
                    >= out@.len(),
            m0 == candidate_map(cb@, all_txs),
            cand@ == after_consume(m0, cb@.short_ids.take(next_sid as int)),
            forall|i: int| 0 <= i < out@.len() ==> out@[i] == (#[trigger] slot(cb@, m0, i)),
        decreases total - out.len(),
    {
        let ghost pf = cb@.prefilled_transactions;
        let ghost i = out@.len() as int;
        if next_pref < pref_len && cb.prefilled_transactions[next_pref].index == out.len() {
            let tx = cb.prefilled_transactions[next_pref].transaction;
            proof {
                assert(pf[next_pref as int].index == i);
                assert(is_prefilled(cb@, i));
                let w = choose|k: int|
                    0 <= k < pf.len() && (#[trigger] pf[k]).index == i;
                if w < next_pref as int {
                    assert(pf[w].index < i);
                    assert(false);
                } else if w > next_pref as int {
                    lemma_sorted_gap(pf, next_pref as int, w);
                    assert(false);
                }
                assert(prefilled_tx_at(cb@, i) == tx);
                assert forall|k: int| next_pref as int + 1 <= k < pf.len() implies (
                #[trigger] pf[k]).index >= i + 1 by {
                    lemma_sorted_gap(pf, next_pref as int, k);
                }
            }
            out.push(Some(tx));
            next_pref += 1;
        } else {
            proof {
                // a short id is left: were they exhausted, the next prefilled
                // entry would have to sit exactly here
                if next_sid == sid_len {
                    assert(next_pref < pref_len);
                    lemma_sorted_gap(pf, next_pref as int, pf.len() - 1);
                    assert(pf[pf.len() - 1].index < cb@.total());
                    assert(pf[next_pref as int].index <= sid_len + next_pref as int);
                    assert(pf[next_pref as int].index >= i);
                    assert(pf[next_pref as int].index == i);
                    assert(false);
                }
            }
            let sid = cb.short_ids[next_sid];
            let got = cand.remove(sid);
            proof {
                // this position is not prefilled
                assert forall|k: int| 0 <= k < pf.len() implies (#[trigger] pf[k]).index
                    != i by {
                    if next_pref as int <= k {
                        if k > next_pref as int {
                            lemma_sorted_gap(pf, next_pref as int, k);
                        }
                        if pf[k].index == i {
                            assert(k == next_pref as int);
                            assert(next_pref < pref_len);
                        }
                    }
                }
                assert(!is_prefilled(cb@, i));
                // it consumes the short id of its rank
                lemma_count_split(pf, i, next_pref as int);
                assert(sid_rank(cb@, i) == next_sid as int);
                assert(cb@.short_ids.take(next_sid as int + 1).drop_last() =~= cb@.short_ids.take(
                    next_sid as int,
                ));
                lemma_after_consume_push(m0, cb@.short_ids.take(next_sid as int), sid);
                assert(cb@.short_ids.take(next_sid as int).push(sid) =~= cb@.short_ids.take(
                    next_sid as int + 1,
                ));
                assert(got == resolved_at(m0, cb@.short_ids, next_sid as int));
                assert(got == slot(cb@, m0, i));
                // later prefilled entries still sit at or above the next position
                assert forall|k: int| next_pref as int <= k < pf.len() implies (
                #[trigger] pf[k]).index >= i + 1 by {
                    if k > next_pref as int {
                        lemma_sorted_gap(pf, next_pref as int, k);
                    }
                    assert(pf[k].index != i);
                }
            }
            out.push(got);
            next_sid += 1;
        }
    }

    // collect the unresolved positions
    let mut missing: Vec<usize> = Vec::new();
    let mut j: usize = 0;
    while j < out.len()
        invariant
            total == cb@.total(),
            out@.len() == total,
            m0 == candidate_map(cb@, all_txs),
            forall|i: int| 0 <= i < out@.len() ==> out@[i] == (#[trigger] slot(cb@, m0, i)),
            j <= out@.len(),
            forall|q: int|
                0 <= q < missing@.len() ==> (#[trigger] missing@[q]) < j && out@[missing@[q] as int]
                    is None,
            forall|p: int|
                0 <= p < j && (#[trigger] out@[p]) is None ==> exists|q: int|
                    0 <= q < missing@.len() && (#[trigger] missing@[q]) as int == p,
            forall|q: int| 0 < q < missing@.len() ==> missing@[q - 1] < (#[trigger] missing@[q]),
        decreases out@.len() - j,
    {
        if out[j].is_none() {
            let ghost prevm = missing@;
            missing.push(j);
            proof {
                assert forall|p: int|
                    0 <= p < j as int + 1 && (#[trigger] out@[p]) is None implies exists|q: int|
                    0 <= q < missing@.len() && (#[trigger] missing@[q]) as int == p by {
                    if p < j as int {
                        let q = choose|q: int|
                            0 <= q < prevm.len() && (#[trigger] prevm[q]) as int == p;
                        assert(missing@[q] as int == p);
                    } else {
                        assert(missing@[missing@.len() - 1] as int == p);
                    }
                }
            }
        }
        j += 1;
    }

    if missing.is_empty() {
        // every slot resolved: build the block
        let mut commit: Vec<Transaction> = Vec::new();
        let mut c: usize = 0;
        proof {
            assert forall|i: int| 0 <= i < total implies (#[trigger] out@[i]) is Some by {
                if out@[i] is None {
                    let q = choose|q: int|
                        0 <= q < missing@.len() && (#[trigger] missing@[q]) as int == i;
                    assert(false);
                }
            }
        }
        while c < out.len()
            invariant
                total == cb@.total(),
                out@.len() == total,
                m0 == candidate_map(cb@, all_txs),
                forall|i: int| 0 <= i < out@.len() ==> out@[i] == (#[trigger] slot(cb@, m0, i)),
                forall|i: int| 0 <= i < out@.len() ==> (#[trigger] out@[i]) is Some,
                c <= out@.len(),
                commit@.len() == c as int,
                forall|i: int| 0 <= i < c ==> out@[i] == Some(#[trigger] commit@[i]),
            decreases out@.len() - c,
        {
            match out[c] {
                Some(tx) => {
                    commit.push(tx);
                },
                None => {
                    proof {
                        assert(false);
                    }
                },
            }
            c += 1;
        }
        let block = Block {
            header: cb.header,
            uncles: copy_uncles(&cb.uncles),
            commit_transactions: commit,
            proposal_transactions: copy_proposal_ids(&cb.proposal_transactions),
        };
        proof {
            assert(block@.uncles == uncles_view(cb.uncles@));
            assert(full(cb@, m0));
            assert(block_matches(cb@, m0, block@));
        }
        (Some(block), None)
    } else {
        proof {
            assert(missing@.len() > 0);
            let p0 = missing@[0] as int;
            assert(slot(cb@, m0, p0) is None);
            assert(!full(cb@, m0));
            assert(missing_ok(cb@, m0, missing@));
        }
        (None, Some(missing))
    }
}

} // verus!
