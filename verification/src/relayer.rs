//! The relay engine: message dispatch, the six handlers, proposal-request
//! batching, and the shared state they advance.
//!
//! Every handler is a function from the shared state, the inbound event
//! and a snapshot of the collaborators' answers to the next state and a
//! list of actions. The surrounding application performs the actions: it
//! sends the wire messages, drives accepted blocks through the verifier
//! and the chain controller, and submits transactions to the mempool.

use vstd::prelude::*;
use crate::types::{proposal_id_of, H256, PeerIndex, ProposalShortId, Transaction};
use crate::block::{Block, BlockView, CompactBlock, CompactBlockView, UncleView};
use crate::reconstruct::{block_matches, candidate_map, full, missing_ok, reconstruct_block};
use crate::state::{lemma_record_fn, pb_batch, pb_has, pb_view, ppr_at, ppr_has, ppr_peers,
    ppr_record_fn, ppr_wf, HashSet256, PeerBatches, PendingCompactMap, PendingProposalsMap,
    ProposalIdSet};

verus! {

/// A relay wire message, by payload tag.
pub enum RelayMessage {
    CompactBlock(CompactBlock),
    Transaction(Transaction),
    GetBlockTransactions { block_hash: H256, indexes: Vec<usize> },
    BlockTransactions { block_hash: H256, transactions: Vec<Transaction> },
    GetBlockProposal { block_number: u64, proposal_ids: Vec<ProposalShortId> },
    BlockProposal { transactions: Vec<Transaction> },
}

/// The mathematical view of a relay message.
pub enum MessageView {
    CompactBlock(CompactBlockView),
    Transaction(Transaction),
    GetBlockTransactions { block_hash: H256, indexes: Seq<usize> },
    BlockTransactions { block_hash: H256, transactions: Seq<Transaction> },
    GetBlockProposal { block_number: u64, proposal_ids: Seq<ProposalShortId> },
    BlockProposal { transactions: Seq<Transaction> },
}

impl View for RelayMessage {
    type V = MessageView;

    open spec fn view(&self) -> MessageView {
        match self {
            RelayMessage::CompactBlock(cb) => MessageView::CompactBlock(cb@),
            RelayMessage::Transaction(tx) => MessageView::Transaction(*tx),
            RelayMessage::GetBlockTransactions { block_hash, indexes } =>
                MessageView::GetBlockTransactions { block_hash: *block_hash, indexes: indexes@ },
            RelayMessage::BlockTransactions { block_hash, transactions } =>
                MessageView::BlockTransactions {
                    block_hash: *block_hash,
                    transactions: transactions@,
                },
            RelayMessage::GetBlockProposal { block_number, proposal_ids } =>
                MessageView::GetBlockProposal {
                    block_number: *block_number,
                    proposal_ids: proposal_ids@,
                },
            RelayMessage::BlockProposal { transactions } => MessageView::BlockProposal {
                transactions: transactions@,
            },
        }
    }
}

/// An effect the engine asks the application to perform.
pub enum RelayAction {
    /// Send a wire message to a peer.
    Send { peer: PeerIndex, message: RelayMessage },
    /// Drive a reconstructed block through the acceptance path: the block
    /// verifier, and on success the chain controller.
    SubmitBlock { peer: PeerIndex, block: Block },
    /// Submit a transaction to the mempool's admission interface.
    SubmitTransaction { transaction: Transaction },
}

/// The mathematical view of an action.
pub enum ActionView {
    Send { peer: PeerIndex, message: MessageView },
    SubmitBlock { peer: PeerIndex, block: BlockView },
    SubmitTransaction { transaction: Transaction },
}

impl View for RelayAction {
    type V = ActionView;

    open spec fn view(&self) -> ActionView {
        match self {
            RelayAction::Send { peer, message } => ActionView::Send {
                peer: *peer,
                message: message@,
            },
            RelayAction::SubmitBlock { peer, block } => ActionView::SubmitBlock {
                peer: *peer,
                block: block@,
            },
            RelayAction::SubmitTransaction { transaction } => ActionView::SubmitTransaction {
                transaction: *transaction,
            },
        }
    }
}

/// The views of emitted actions, in order.
pub open spec fn acts_view(s: Seq<RelayAction>) -> Seq<ActionView> {
    Seq::new(s.len(), |k: int| s[k]@)
}

/// The shared relay state.
pub struct RelayState {
    /// Blocks recently processed, for de-duplication.
    pub received_blocks: HashSet256,
    /// Transactions recently gossiped, for de-duplication.
    pub received_transactions: HashSet256,
    /// Compact blocks waiting on a `BlockTransactions` reply.
    pub pending_compact_blocks: PendingCompactMap,
    /// Proposal ids already requested and awaited.
    pub inflight_proposals: ProposalIdSet,
    /// Peers asking for proposal ids not yet served.
    pub pending_proposals_request: PendingProposalsMap,
}

/// The mathematical view of the shared relay state.
#[verifier::ext_equal]
pub struct RelayStateView {
    pub received_blocks: Set<H256>,
    pub received_transactions: Set<H256>,
    pub pending_compact_blocks: Map<H256, CompactBlockView>,
    pub inflight_proposals: Set<ProposalShortId>,
    pub pending_proposals_request: Seq<(ProposalShortId, Seq<PeerIndex>)>,
}

impl View for RelayState {
    type V = RelayStateView;

    open spec fn view(&self) -> RelayStateView {
        RelayStateView {
            received_blocks: self.received_blocks@,
            received_transactions: self.received_transactions@,
            pending_compact_blocks: self.pending_compact_blocks@,
            inflight_proposals: self.inflight_proposals@,
            pending_proposals_request: self.pending_proposals_request@,
        }
    }
}

impl RelayStateView {
    /// The empty state.
    pub open spec fn initial() -> RelayStateView {
        RelayStateView {
            received_blocks: Set::empty(),
            received_transactions: Set::empty(),
            pending_compact_blocks: Map::empty(),
            inflight_proposals: Set::empty(),
            pending_proposals_request: Seq::empty(),
        }
    }
}

impl RelayState {
    /// The containers' invariants, and: every pending compact block is
    /// well formed — the compact-block handler files only blocks it has
    /// checked, so a later `BlockTransactions` reply reconstructs safely.
    pub open spec fn wf(&self) -> bool {
        &&& self.pending_compact_blocks.wf()
        &&& self.pending_proposals_request.wf()
        &&& forall|h: H256|
            #[trigger] self.pending_compact_blocks@.contains_key(h)
                ==> self.pending_compact_blocks@[h].well_formed()
    }

    /// A fresh, empty state.
    pub fn new() -> (r: RelayState)
        ensures
            r.wf(),
            r@ == RelayStateView::initial(),
    {
        let r = RelayState {
            received_blocks: HashSet256::new(),
            received_transactions: HashSet256::new(),
            pending_compact_blocks: PendingCompactMap::new(),
            inflight_proposals: ProposalIdSet::new(),
            pending_proposals_request: PendingProposalsMap::new(),
        };
        proof {
            assert(r@ =~= RelayStateView::initial());
        }
        r
    }
}

/// The first transaction of `pool` whose proposal short id is `id`, the
/// way the mempool answers a proposal lookup against a snapshot.
pub open spec fn pool_lookup(pool: Seq<Transaction>, id: ProposalShortId) -> Option<Transaction>
    decreases pool.len(),
{
    if pool.len() == 0 {
        None
    } else if proposal_id_of(pool[0].hash) == id {
        Some(pool[0])
    } else {
        pool_lookup(pool.drop_first(), id)
    }
}

/// Whether the mempool snapshot holds a transaction for proposal id `id`.
pub open spec fn pool_has_proposal(pool: Seq<Transaction>, id: ProposalShortId) -> bool {
    pool_lookup(pool, id) is Some
}

/// Looks `id` up in the mempool snapshot.
pub fn pool_get(pool: &Vec<Transaction>, id: &ProposalShortId) -> (r: Option<Transaction>)
    ensures
        r == pool_lookup(pool@, *id),
{
    let mut i: usize = 0;
    proof {
        assert(pool@.skip(0) =~= pool@);
    }
    while i < pool.len()
        invariant
            i <= pool@.len(),
            pool_lookup(pool@, *id) == pool_lookup(pool@.skip(i as int), *id),
        decreases pool@.len() - i,
    {
        let ghost tail = pool@.skip(i as int);
        assert(tail[0] == pool@[i as int]);
        let tx = pool[i];
        if crate::types::proposal_short_id(&tx.hash) == *id {
            return Some(tx);
        }
        proof {
            assert(tail.drop_first() =~= pool@.skip(i as int + 1));
        }
        i += 1;
    }
    proof {
        assert(pool@.skip(pool@.len() as int) =~= Seq::<Transaction>::empty());
    }
    None
}

/// The proposal short ids a compact block's uncles announce, concatenated
/// in order.
pub open spec fn uncle_proposals(uncles: Seq<UncleView>) -> Seq<ProposalShortId>
    decreases uncles.len(),
{
    if uncles.len() == 0 {
        Seq::empty()
    } else {
        uncles[0].proposal_transactions + uncle_proposals(uncles.drop_first())
    }
}

/// Every proposal short id a compact block announces: its own, then each
/// uncle's, in order.
pub open spec fn proposal_stream(cb: CompactBlockView) -> Seq<ProposalShortId> {
    cb.proposal_transactions + uncle_proposals(cb.uncles)
}

/// The ids of `stream` worth requesting: not in the mempool, not already
/// in flight, and not seen earlier in the stream. Kept in stream order.
pub open spec fn unknown_ids(
    stream: Seq<ProposalShortId>,
    pool: Seq<Transaction>,
    inflight: Set<ProposalShortId>,
) -> Seq<ProposalShortId>
    decreases stream.len(),
{
    if stream.len() == 0 {
        Seq::empty()
    } else {
        let h = stream[0];
        if !pool_has_proposal(pool, h) && !inflight.contains(h) {
            seq![h] + unknown_ids(stream.drop_first(), pool, inflight.insert(h))
        } else {
            unknown_ids(stream.drop_first(), pool, inflight)
        }
    }
}

/// The in-flight set after the ids of `stream` worth requesting have been
/// added.
pub open spec fn inflight_after(
    stream: Seq<ProposalShortId>,
    pool: Seq<Transaction>,
    inflight: Set<ProposalShortId>,
) -> Set<ProposalShortId>
    decreases stream.len(),
{
    if stream.len() == 0 {
        inflight
    } else {
        let h = stream[0];
        if !pool_has_proposal(pool, h) && !inflight.contains(h) {
            inflight_after(stream.drop_first(), pool, inflight.insert(h))
        } else {
            inflight_after(stream.drop_first(), pool, inflight)
        }
    }
}

/// Extending the stream by one id appends it to the requested ids exactly
/// when it is neither in the mempool nor already in flight.
proof fn lemma_unknown_snoc(
    stream: Seq<ProposalShortId>,
    x: ProposalShortId,
    pool: Seq<Transaction>,
    inflight: Set<ProposalShortId>,
)
    ensures
        unknown_ids(stream.push(x), pool, inflight) == (if !pool_has_proposal(pool, x)
            && !inflight_after(stream, pool, inflight).contains(x) {
            unknown_ids(stream, pool, inflight).push(x)
        } else {
            unknown_ids(stream, pool, inflight)
        }),
        inflight_after(stream.push(x), pool, inflight) == (if !pool_has_proposal(pool, x)
            && !inflight_after(stream, pool, inflight).contains(x) {
            inflight_after(stream, pool, inflight).insert(x)
        } else {
            inflight_after(stream, pool, inflight)
        }),
    decreases stream.len(),
{
    if stream.len() == 0 {
        assert(stream.push(x)[0] == x);
        assert(stream.push(x).drop_first() =~= Seq::<ProposalShortId>::empty());
        assert(unknown_ids(Seq::<ProposalShortId>::empty(), pool, inflight.insert(x))
            == Seq::<ProposalShortId>::empty());
        assert(inflight_after(Seq::<ProposalShortId>::empty(), pool, inflight.insert(x))
            == inflight.insert(x));
        assert(unknown_ids(Seq::<ProposalShortId>::empty(), pool, inflight)
            == Seq::<ProposalShortId>::empty());
        assert(inflight_after(Seq::<ProposalShortId>::empty(), pool, inflight) == inflight);
        assert(stream =~= Seq::<ProposalShortId>::empty());
        if !pool_has_proposal(pool, x) && !inflight.contains(x) {
            assert(unknown_ids(stream.push(x), pool, inflight) =~= unknown_ids(
                stream,
                pool,
                inflight,
            ).push(x));
        }
    } else {
        assert(stream.push(x)[0] == stream[0]);
        assert(stream.push(x).drop_first() =~= stream.drop_first().push(x));
        let h = stream[0];
        if !pool_has_proposal(pool, h) && !inflight.contains(h) {
            lemma_unknown_snoc(stream.drop_first(), x, pool, inflight.insert(h));
            if !pool_has_proposal(pool, x) && !inflight_after(stream, pool, inflight).contains(x) {
                assert(unknown_ids(stream.push(x), pool, inflight) =~= unknown_ids(
                    stream,
                    pool,
                    inflight,
                ).push(x));
            }
        } else {
            lemma_unknown_snoc(stream.drop_first(), x, pool, inflight);
        }
    }
}

/// In-flight bookkeeping is monotone, every requested id was new, the
/// requested ids are pairwise distinct, and afterwards exactly they have
/// joined the in-flight set.
pub proof fn lemma_request_monotone(
    stream: Seq<ProposalShortId>,
    pool: Seq<Transaction>,
    inflight: Set<ProposalShortId>,
)
    ensures
        forall|id: ProposalShortId| inflight.contains(id) ==> #[trigger] inflight_after(
            stream,
            pool,
            inflight,
        ).contains(id),
        forall|q: int|
            0 <= q < unknown_ids(stream, pool, inflight).len() ==> {
                let id = #[trigger] unknown_ids(stream, pool, inflight)[q];
                !pool_has_proposal(pool, id) && !inflight.contains(id) && inflight_after(
                    stream,
                    pool,
                    inflight,
                ).contains(id)
            },
        forall|a: int, b: int|
            0 <= a < b < unknown_ids(stream, pool, inflight).len() ==> (
            #[trigger] unknown_ids(stream, pool, inflight)[a]) != (#[trigger] unknown_ids(
                stream,
                pool,
                inflight,
            )[b]),
        forall|id: ProposalShortId|
            #[trigger] inflight_after(stream, pool, inflight).contains(id) ==> (inflight.contains(
                id,
            ) || unknown_ids(stream, pool, inflight).contains(id)),
    decreases stream.len(),
{
    if stream.len() > 0 {
        let h = stream[0];
        let rest = stream.drop_first();
        let ids = unknown_ids(stream, pool, inflight);
        let after = inflight_after(stream, pool, inflight);
        if !pool_has_proposal(pool, h) && !inflight.contains(h) {
            lemma_request_monotone(rest, pool, inflight.insert(h));
            let rest_ids = unknown_ids(rest, pool, inflight.insert(h));
            let rest_after = inflight_after(rest, pool, inflight.insert(h));
            assert(ids == seq![h] + rest_ids);
            assert(after == rest_after);
            assert(ids[0] == h);
            assert(forall|q: int| 1 <= q < ids.len() ==> (#[trigger] ids[q]) == rest_ids[q - 1]);
            assert forall|id: ProposalShortId| inflight.contains(id) implies #[trigger] after
                .contains(id) by {
                assert(inflight.insert(h).contains(id));
                assert(rest_after.contains(id));
            }
            assert forall|q: int| 0 <= q < ids.len() implies {
                let id = #[trigger] ids[q];
                !pool_has_proposal(pool, id) && !inflight.contains(id) && after.contains(id)
            } by {
                if q == 0 {
                    assert(inflight.insert(h).contains(h));
                    assert(rest_after.contains(h));
                } else {
                    assert(ids[q] == rest_ids[q - 1]);
                    assert(!inflight.insert(h).contains(rest_ids[q - 1]));
                }
            }
            assert forall|a: int, b: int| 0 <= a < b < ids.len() implies (#[trigger] ids[a]) != (
            #[trigger] ids[b]) by {
                if a == 0 {
                    assert(!inflight.insert(h).contains(rest_ids[b - 1]));
                } else {
                    assert(rest_ids[a - 1] != rest_ids[b - 1]);
                }
            }
            assert forall|id: ProposalShortId| #[trigger] after.contains(id) implies (
            inflight.contains(id) || ids.contains(id)) by {
                assert(rest_after.contains(id));
                if !inflight.contains(id) && id != h {
                    assert(!inflight.insert(h).contains(id));
                    assert(rest_ids.contains(id));
                    let q = choose|q: int| 0 <= q < rest_ids.len() && rest_ids[q] == id;
                    assert(ids[q + 1] == id);
                    assert(ids.contains(id));
                }
                if id == h {
                    assert(ids[0] == h);
                    assert(ids.contains(id));
                }
            }
        } else {
            lemma_request_monotone(rest, pool, inflight);
            let rest_ids = unknown_ids(rest, pool, inflight);
            let rest_after = inflight_after(rest, pool, inflight);
            assert(ids == rest_ids);
            assert(after == rest_after);
            assert forall|id: ProposalShortId| inflight.contains(id) implies #[trigger] after
                .contains(id) by {
                assert(rest_after.contains(id));
            }
            assert forall|id: ProposalShortId| #[trigger] after.contains(id) implies (
            inflight.contains(id) || ids.contains(id)) by {
                assert(rest_after.contains(id));
            }
        }
    }
}

/// The relay engine.
pub struct Relayer {
    /// The shared relay state all clones of the handle advance.
    pub state: RelayState,
}

impl Relayer {
    /// A relay engine over a fresh state.
    pub fn new() -> (r: Relayer)
        ensures
            r.state.wf(),
            r.state@ == RelayStateView::initial(),
    {
        Relayer { state: RelayState::new() }
    }

    /// Collects the proposal ids of `block` and its uncles that neither
    /// the mempool nor the in-flight set knows, marks them in flight, and
    /// emits one `GetBlockProposal` for them to `peer`.
    pub fn request_proposal_txs(
        &mut self,
        peer: PeerIndex,
        block: &CompactBlock,
        pool: &Vec<Transaction>,
    ) -> (act: RelayAction)
        requires
            old(self).state.wf(),
        ensures
            final(self).state.wf(),
            final(self).state@ == (RelayStateView {
                inflight_proposals: inflight_after(
                    proposal_stream(block@),
                    pool@,
                    old(self).state@.inflight_proposals,
                ),
                ..old(self).state@
            }),
            act@ == (ActionView::Send {
                peer,
                message: MessageView::GetBlockProposal {
                    block_number: block@.header.number,
                    proposal_ids: unknown_ids(
                        proposal_stream(block@),
                        pool@,
                        old(self).state@.inflight_proposals,
                    ),
                },
            }),
    {
        let ghost infl0 = self.state@.inflight_proposals;
        let ghost pre = self.state@;
        let mut ids: Vec<ProposalShortId> = Vec::new();
        let ghost mut done: Seq<ProposalShortId> = Seq::empty();
        proof {
            assert(unknown_ids(done, pool@, infl0) =~= Seq::<ProposalShortId>::empty());
        }

        let mut i: usize = 0;
        while i < block.proposal_transactions.len()
            invariant
                self.state.wf(),
                pre == old(self).state@,
                infl0 == pre.inflight_proposals,
                i <= block@.proposal_transactions.len(),
                done == block@.proposal_transactions.take(i as int),
                self.state@ == (RelayStateView {
                    inflight_proposals: inflight_after(done, pool@, infl0),
                    ..pre
                }),
                ids@ == unknown_ids(done, pool@, infl0),
            decreases block@.proposal_transactions.len() - i,
        {
            let x = block.proposal_transactions[i];
            self.step_proposal_id(Ghost(done), Ghost(pool@), Ghost(infl0), Ghost(pre), x, pool,
                &mut ids);
            proof {
                done = done.push(x);
                assert(block@.proposal_transactions.take(i as int + 1) =~= done);
            }
            i += 1;
        }

        let mut u: usize = 0;
        let ghost uncles = block@.uncles;
        proof {
            assert(uncle_proposals(uncles.take(0)) =~= Seq::<ProposalShortId>::empty());
            assert(done + uncle_proposals(uncles.take(0)) =~= done);
        }
        let ghost done_head: Seq<ProposalShortId> = done;
        let ghost mut done2: Seq<ProposalShortId> = done;
        while u < block.uncles.len()
            invariant
                self.state.wf(),
                pre == old(self).state@,
                infl0 == pre.inflight_proposals,
                u <= block@.uncles.len(),
                uncles == block@.uncles,
                done_head == block@.proposal_transactions,
                done2 == done_head + uncle_proposals(uncles.take(u as int)),
                self.state@ == (RelayStateView {
                    inflight_proposals: inflight_after(done2, pool@, infl0),
                    ..pre
                }),
                ids@ == unknown_ids(done2, pool@, infl0),
            decreases block@.uncles.len() - u,
        {
            let mut j: usize = 0;
            let ghost done_u: Seq<ProposalShortId> = done2;
            while j < block.uncles[u].proposal_transactions.len()
                invariant
                    self.state.wf(),
                    pre == old(self).state@,
                    infl0 == pre.inflight_proposals,
                    u < block@.uncles.len(),
                    uncles == block@.uncles,
                    j <= uncles[u as int].proposal_transactions.len(),
                    done2 == done_u + uncles[u as int].proposal_transactions.take(j as int),
                    self.state@ == (RelayStateView {
                        inflight_proposals: inflight_after(done2, pool@, infl0),
                        ..pre
                    }),
                    ids@ == unknown_ids(done2, pool@, infl0),
                decreases uncles[u as int].proposal_transactions.len() - j,
            {
                let x = block.uncles[u].proposal_transactions[j];
                self.step_proposal_id(Ghost(done2), Ghost(pool@), Ghost(infl0), Ghost(pre), x,
                    pool, &mut ids);
                proof {
                    done2 = done2.push(x);
                    assert(uncles[u as int].proposal_transactions.take(j as int + 1)
                        =~= uncles[u as int].proposal_transactions.take(j as int).push(x));
                    assert(done2 =~= done_u + uncles[u as int].proposal_transactions.take(
                        j as int + 1,
                    ));
                }
                j += 1;
            }
            proof {
                assert(uncles[u as int].proposal_transactions.take(
                    uncles[u as int].proposal_transactions.len() as int,
                ) =~= uncles[u as int].proposal_transactions);
                lemma_uncle_props_snoc(uncles, u as int);
                assert(done2 =~= done_head + uncle_proposals(uncles.take(u as int + 1)));
            }
            u += 1;
        }
        proof {
            assert(uncles.take(uncles.len() as int) =~= uncles);
            assert(done2 =~= proposal_stream(block@));
        }
        RelayAction::Send {
            peer,
            message: RelayMessage::GetBlockProposal {
                block_number: block.header.number,
                proposal_ids: ids,
            },
        }
    }

    /// Processes one announced proposal id: marks it in flight and adds it
    /// to the request exactly when the mempool and the in-flight set do
    /// not know it.
    fn step_proposal_id(
        &mut self,
        Ghost(done): Ghost<Seq<ProposalShortId>>,
        Ghost(gpool): Ghost<Seq<Transaction>>,
        Ghost(infl0): Ghost<Set<ProposalShortId>>,
        Ghost(pre): Ghost<RelayStateView>,
        x: ProposalShortId,
        pool: &Vec<Transaction>,
        ids: &mut Vec<ProposalShortId>,
    )
        requires
            old(self).state.wf(),
            gpool == pool@,
            old(self).state@ == (RelayStateView {
                inflight_proposals: inflight_after(done, gpool, infl0),
                ..pre
            }),
            old(ids)@ == unknown_ids(done, gpool, infl0),
        ensures
            final(self).state.wf(),
            final(self).state@ == (RelayStateView {
                inflight_proposals: inflight_after(done.push(x), gpool, infl0),
                ..pre
            }),
            final(ids)@ == unknown_ids(done.push(x), gpool, infl0),
    {
        proof {
            lemma_unknown_snoc(done, x, gpool, infl0);
        }
        let in_pool = pool_get(pool, &x).is_some();
        if !in_pool {
            let newly = self.state.inflight_proposals.insert(x);
            if newly {
                ids.push(x);
            }
            proof {
                assert(self.state@ =~= (RelayStateView {
                    inflight_proposals: inflight_after(done.push(x), gpool, infl0),
                    ..pre
                }));
            }
        } else {
            proof {
                assert(self.state@ =~= (RelayStateView {
                    inflight_proposals: inflight_after(done.push(x), gpool, infl0),
                    ..pre
                }));
            }
        }
    }
}

/// What handling a compact block from `peer` does. A duplicate, a header
/// failing proof-of-work, or malformed prefilled indices drop the block
/// with no effect. Otherwise the unknown proposal ids are marked in
/// flight and requested, and exactly one of: the block reconstructs from
/// the mempool alone, its hash joins the received set and it goes to the
/// acceptance path; or the compact block is filed as pending and the
/// missing positions are requested from the sender.
pub open spec fn compact_block_post(
    pre: RelayStateView,
    post: RelayStateView,
    acts: Seq<ActionView>,
    peer: PeerIndex,
    cb: CompactBlockView,
    pow_valid: bool,
    pool: Seq<Transaction>,
) -> bool {
    let h = cb.header.hash;
    if pre.received_blocks.contains(h) || !pow_valid || !cb.well_formed() {
        post == pre && acts.len() == 0
    } else {
        let mid = RelayStateView {
            inflight_proposals: inflight_after(proposal_stream(cb), pool, pre.inflight_proposals),
            ..pre
        };
        let m = candidate_map(cb, pool);
        &&& acts.len() == 2
        &&& acts[0] == (ActionView::Send {
            peer,
            message: MessageView::GetBlockProposal {
                block_number: cb.header.number,
                proposal_ids: unknown_ids(proposal_stream(cb), pool, pre.inflight_proposals),
            },
        })
        &&& if full(cb, m) {
            &&& post == (RelayStateView { received_blocks: mid.received_blocks.insert(h), ..mid })
            &&& match acts[1] {
                ActionView::SubmitBlock { peer: p2, block: b } => p2 == peer && block_matches(
                    cb,
                    m,
                    b,
                ),
                _ => false,
            }
        } else {
            &&& post == (RelayStateView {
                pending_compact_blocks: mid.pending_compact_blocks.insert(h, cb),
                ..mid
            })
            &&& match acts[1] {
                ActionView::Send { peer: p2, message } => p2 == peer && match message {
                    MessageView::GetBlockTransactions { block_hash, indexes } => block_hash == h
                        && missing_ok(cb, m, indexes),
                    _ => false,
                },
                _ => false,
            }
        }
    }
}

/// What handling a gossiped transaction does: a duplicate is dropped;
/// a new one is remembered and submitted to the mempool.
pub open spec fn transaction_post(
    pre: RelayStateView,
    post: RelayStateView,
    acts: Seq<ActionView>,
    tx: Transaction,
) -> bool {
    if pre.received_transactions.contains(tx.hash) {
        post == pre && acts.len() == 0
    } else {
        &&& post == (RelayStateView {
            received_transactions: pre.received_transactions.insert(tx.hash),
            ..pre
        })
        &&& acts.len() == 1
        &&& acts[0] == (ActionView::SubmitTransaction { transaction: tx })
    }
}

/// All requested indexes fall inside the block's commit list.
pub open spec fn indexes_in_range(indexes: Seq<usize>, n: int) -> bool {
    forall|j: int| 0 <= j < indexes.len() ==> (#[trigger] indexes[j]) < n
}

/// The requested commit transactions, in request order.
pub open spec fn selected_txs(b: BlockView, indexes: Seq<usize>) -> Seq<Transaction> {
    Seq::new(indexes.len(), |j: int| b.commit_transactions[indexes[j] as int])
}

/// What answering a `GetBlockTransactions` does: no stored block or any
/// out-of-range index drops the request; otherwise the requested
/// transactions go back to the asking peer. The state never changes.
pub open spec fn get_block_transactions_post(
    acts: Seq<ActionView>,
    peer: PeerIndex,
    hash: H256,
    indexes: Seq<usize>,
    stored: Option<BlockView>,
) -> bool {
    match stored {
        None => acts.len() == 0,
        Some(b) => if indexes_in_range(indexes, b.commit_transactions.len() as int) {
            acts.len() == 1 && acts[0] == (ActionView::Send {
                peer,
                message: MessageView::BlockTransactions {
                    block_hash: hash,
                    transactions: selected_txs(b, indexes),
                },
            })
        } else {
            acts.len() == 0
        },
    }
}

/// What handling a `BlockTransactions` reply does: a hash with no pending
/// compact block is dropped; otherwise the pending entry is taken and
/// reconstruction runs again with the supplied transactions in front of
/// the mempool snapshot. Completion sends the block down the acceptance
/// path; anything still missing is dropped, recovery being the sender's
/// concern on a future relay.
pub open spec fn block_transactions_post(
    pre: RelayStateView,
    post: RelayStateView,
    acts: Seq<ActionView>,
    peer: PeerIndex,
    hash: H256,
    txs: Seq<Transaction>,
    pool: Seq<Transaction>,
) -> bool {
    if !pre.pending_compact_blocks.contains_key(hash) {
        post == pre && acts.len() == 0
    } else {
        let cb = pre.pending_compact_blocks[hash];
        let mid = RelayStateView {
            pending_compact_blocks: pre.pending_compact_blocks.remove(hash),
            ..pre
        };
        let m = candidate_map(cb, txs + pool);
        if full(cb, m) {
            &&& post == (RelayStateView { received_blocks: mid.received_blocks.insert(hash), ..mid })
            &&& acts.len() == 1
            &&& match acts[0] {
                ActionView::SubmitBlock { peer: p2, block: b } => p2 == peer && block_matches(
                    cb,
                    m,
                    b,
                ),
                _ => false,
            }
        } else {
            post == mid && acts.len() == 0
        }
    }
}

impl Relayer {
    /// Handles a compact block announced by `peer`.
    pub fn handle_compact_block(
        &mut self,
        peer: PeerIndex,
        block: CompactBlock,
        pow_valid: bool,
        pool: &Vec<Transaction>,
    ) -> (acts: Vec<RelayAction>)
        requires
            old(self).state.wf(),
        ensures
            final(self).state.wf(),
            compact_block_post(
                old(self).state@,
                final(self).state@,
                acts_view(acts@),
                peer,
                block@,
                pow_valid,
                pool@,
            ),
    {
        let ghost pre = self.state@;
        let mut acts: Vec<RelayAction> = Vec::new();
        let hash = block.header.hash;
        if self.state.received_blocks.contains(&hash) {
            proof {
                assert(acts_view(acts@).len() == 0);
            }
            return acts;
        }
        if !pow_valid {
            return acts;
        }
        if !block.is_well_formed() {
            return acts;
        }
        let act_req = self.request_proposal_txs(peer, &block, pool);
        let ghost mid = self.state@;
        acts.push(act_req);
        let extra: Vec<Transaction> = Vec::new();
        proof {
            assert(extra@ + pool@ =~= pool@);
        }
        let ghost cbv = block@;
        let ghost m = candidate_map(block@, pool@);
        match reconstruct_block(&block, extra, pool) {
            (Some(b), _) => {
                self.state.received_blocks.insert(hash);
                acts.push(RelayAction::SubmitBlock { peer, block: b });
                proof {
                    assert(self.state@ =~= (RelayStateView {
                        received_blocks: mid.received_blocks.insert(hash),
                        ..mid
                    }));
                    assert(acts_view(acts@).len() == 2);
                    assert(acts_view(acts@)[0] == act_req@);
                }
            },
            (None, Some(idx)) => {
                let ghost idxv = idx@;
                self.state.pending_compact_blocks.insert(hash, block);
                acts.push(RelayAction::Send {
                    peer,
                    message: RelayMessage::GetBlockTransactions {
                        block_hash: hash,
                        indexes: idx,
                    },
                });
                proof {
                    assert(self.state@ =~= (RelayStateView {
                        pending_compact_blocks: mid.pending_compact_blocks.insert(hash, cbv),
                        ..mid
                    }));
                    assert forall|h2: H256|
                        #[trigger] self.state.pending_compact_blocks@.contains_key(h2) implies
                        self.state.pending_compact_blocks@[h2].well_formed() by {
                        if h2 != hash {
                            assert(mid.pending_compact_blocks.contains_key(h2));
                        }
                    }
                    assert(acts_view(acts@).len() == 2);
                    assert(acts_view(acts@)[0] == act_req@);
                }
            },
            (None, None) => {
                proof {
                    assert(false);
                }
            },
        }
        acts
    }
}

/// Appending one uncle appends its proposal ids to the concatenated
/// stream.
proof fn lemma_uncle_props_snoc(uncles: Seq<UncleView>, u: int)
    requires
        0 <= u < uncles.len(),
    ensures
        uncle_proposals(uncles.take(u + 1)) == uncle_proposals(uncles.take(u))
            + uncles[u].proposal_transactions,
    decreases u,
{
    if u == 0 {
        let s = uncles.take(1);
        assert(s[0] == uncles[0]);
        assert(s.drop_first() =~= Seq::<UncleView>::empty());
        assert(uncles.take(0) =~= Seq::<UncleView>::empty());
        assert(uncle_proposals(uncles.take(1)) =~= uncle_proposals(uncles.take(0))
            + uncles[0].proposal_transactions);
    } else {
        lemma_uncle_props_snoc(uncles.drop_first(), u - 1);
        let a = uncles.take(u + 1);
        let b = uncles.take(u);
        assert(a[0] == uncles[0]);
        assert(b[0] == uncles[0]);
        assert(a.drop_first() =~= uncles.drop_first().take(u));
        assert(b.drop_first() =~= uncles.drop_first().take(u - 1));
        assert(uncles.drop_first()[u - 1] == uncles[u]);
        assert(uncle_proposals(a) == uncles[0].proposal_transactions + uncle_proposals(
            uncles.drop_first().take(u),
        ));
        assert(uncle_proposals(b) == uncles[0].proposal_transactions + uncle_proposals(
            uncles.drop_first().take(u - 1),
        ));
        assert(uncle_proposals(uncles.take(u + 1)) =~= uncle_proposals(uncles.take(u))
            + uncles[u].proposal_transactions);
    }
}

impl Relayer {
    /// Handles a gossiped transaction.
    pub fn handle_transaction(&mut self, tx: Transaction) -> (acts: Vec<RelayAction>)
        requires
            old(self).state.wf(),
        ensures
            final(self).state.wf(),
            transaction_post(old(self).state@, final(self).state@, acts_view(acts@), tx),
    {
        let ghost pre = self.state@;
        let mut acts: Vec<RelayAction> = Vec::new();
        if self.state.received_transactions.contains(&tx.hash) {
            return acts;
        }
        self.state.received_transactions.insert(tx.hash);
        acts.push(RelayAction::SubmitTransaction { transaction: tx });
        proof {
            assert(self.state@ =~= (RelayStateView {
                received_transactions: pre.received_transactions.insert(tx.hash),
                ..pre
            }));
            assert(acts_view(acts@).len() == 1);
        }
        acts
    }

    /// Answers a `GetBlockTransactions` request with the commit
    /// transactions the peer asks for, out of the block the application
    /// looked up in chain storage.
    pub fn handle_get_block_transactions(
        &self,
        peer: PeerIndex,
        block_hash: H256,
        indexes: &Vec<usize>,
        stored: Option<&Block>,
    ) -> (acts: Vec<RelayAction>)
        ensures
            get_block_transactions_post(
                acts_view(acts@),
                peer,
                block_hash,
                indexes@,
                match stored {
                    Some(b) => Some(b@),
                    None => None,
                },
            ),
    {
        let acts: Vec<RelayAction> = Vec::new();
        match stored {
            None => acts,
            Some(b) => {
                let n = b.commit_transactions.len();
                let mut all_ok = true;
                let mut j: usize = 0;
                while j < indexes.len()
                    invariant
                        j <= indexes@.len(),
                        n == b@.commit_transactions.len(),
                        all_ok == indexes_in_range(indexes@.take(j as int), n as int),
                    decreases indexes@.len() - j,
                {
                    proof {
                        assert(indexes@.take(j as int + 1) =~= indexes@.take(j as int).push(
                            indexes@[j as int],
                        ));
                        assert(forall|q: int|
                            0 <= q < j ==> indexes@.take(j as int)[q] == (#[trigger] indexes@[q]));
                        assert(forall|q: int|
                            0 <= q < j + 1 ==> indexes@.take(j as int + 1)[q] == (
                            #[trigger] indexes@[q]));
                    }
                    if indexes[j] >= n {
                        all_ok = false;
                    }
                    j += 1;
                }
                proof {
                    assert(indexes@.take(indexes@.len() as int) =~= indexes@);
                }
                if !all_ok {
                    return acts;
                }
                let mut txs: Vec<Transaction> = Vec::new();
                let mut q: usize = 0;
                while q < indexes.len()
                    invariant
                        q <= indexes@.len(),
                        n == b@.commit_transactions.len(),
                        indexes_in_range(indexes@, n as int),
                        txs@.len() == q as int,
                        forall|x: int|
                            0 <= x < q ==> txs@[x] == b@.commit_transactions[(
                            #[trigger] indexes@[x]) as int],
                    decreases indexes@.len() - q,
                {
                    let ix = indexes[q];
                    txs.push(b.commit_transactions[ix]);
                    q += 1;
                }
                proof {
                    assert(txs@ =~= selected_txs(b@, indexes@));
                }
                let mut out: Vec<RelayAction> = Vec::new();
                out.push(RelayAction::Send {
                    peer,
                    message: RelayMessage::BlockTransactions { block_hash, transactions: txs },
                });
                proof {
                    assert(acts_view(out@).len() == 1);
                }
                out
            },
        }
    }

    /// Handles a `BlockTransactions` reply from `peer`.
    pub fn handle_block_transactions(
        &mut self,
        peer: PeerIndex,
        block_hash: H256,
        transactions: Vec<Transaction>,
        pool: &Vec<Transaction>,
    ) -> (acts: Vec<RelayAction>)
        requires
            old(self).state.wf(),
        ensures
            final(self).state.wf(),
            block_transactions_post(
                old(self).state@,
                final(self).state@,
                acts_view(acts@),
                peer,
                block_hash,
                transactions@,
                pool@,
            ),
    {
        let ghost pre = self.state@;
        let mut acts: Vec<RelayAction> = Vec::new();
        let taken = self.state.pending_compact_blocks.remove(&block_hash);
        match taken {
            None => {
                proof {
                    assert(pre.pending_compact_blocks.remove(block_hash)
                        =~= pre.pending_compact_blocks);
                    assert(self.state@ =~= pre);
                }
                acts
            },
            Some(cb) => {
                let ghost mid = self.state@;
                let ghost m = candidate_map(cb@, transactions@ + pool@);
                assert(cb@.well_formed());
                match reconstruct_block(&cb, transactions, pool) {
                    (Some(b), _) => {
                        self.state.received_blocks.insert(block_hash);
                        acts.push(RelayAction::SubmitBlock { peer, block: b });
                        proof {
                            assert(self.state@ =~= (RelayStateView {
                                received_blocks: mid.received_blocks.insert(block_hash),
                                ..mid
                            }));
                            assert(mid =~= (RelayStateView {
                                pending_compact_blocks: pre.pending_compact_blocks.remove(
                                    block_hash,
                                ),
                                ..pre
                            }));
                            assert(acts_view(acts@).len() == 1);
                        }
                        acts
                    },
                    (None, Some(_)) => {
                        proof {
                            assert(mid =~= (RelayStateView {
                                pending_compact_blocks: pre.pending_compact_blocks.remove(
                                    block_hash,
                                ),
                                ..pre
                            }));
                        }
                        acts
                    },
                    (None, None) => {
                        proof {
                            assert(false);
                        }
                        acts
                    },
                }
            },
        }
    }
}

/// The transactions the mempool can serve right away for `ids`, in
/// request order.
pub open spec fn proposal_reply_txs(ids: Seq<ProposalShortId>, pool: Seq<Transaction>) -> Seq<
    Transaction,
>
    decreases ids.len(),
{
    if ids.len() == 0 {
        Seq::empty()
    } else {
        let rest = proposal_reply_txs(ids.drop_first(), pool);
        match pool_lookup(pool, ids[0]) {
            Some(tx) => seq![tx] + rest,
            None => rest,
        }
    }
}

/// The pending-proposals entries after `peer` has been recorded for each
/// id of `ids` the mempool cannot serve, in order.
pub open spec fn ppr_after_requests(
    ppr: Seq<(ProposalShortId, Seq<PeerIndex>)>,
    ids: Seq<ProposalShortId>,
    pool: Seq<Transaction>,
    peer: PeerIndex,
) -> Seq<(ProposalShortId, Seq<PeerIndex>)>
    decreases ids.len(),
{
    if ids.len() == 0 {
        ppr
    } else {
        let next = if pool_lookup(pool, ids[0]) is Some {
            ppr
        } else {
            ppr_record_fn(ppr, ids[0], peer)
        };
        ppr_after_requests(next, ids.drop_first(), pool, peer)
    }
}

/// What handling a `GetBlockProposal` does: ids the mempool holds are
/// answered at once in one `BlockProposal`; each other id records the
/// asking peer for the batch timer.
pub open spec fn get_block_proposal_post(
    pre: RelayStateView,
    post: RelayStateView,
    acts: Seq<ActionView>,
    peer: PeerIndex,
    ids: Seq<ProposalShortId>,
    pool: Seq<Transaction>,
) -> bool {
    let txs = proposal_reply_txs(ids, pool);
    &&& post == (RelayStateView {
        pending_proposals_request: ppr_after_requests(
            pre.pending_proposals_request,
            ids,
            pool,
            peer,
        ),
        ..pre
    })
    &&& if txs.len() > 0 {
        acts.len() == 1 && acts[0] == (ActionView::Send {
            peer,
            message: MessageView::BlockProposal { transactions: txs },
        })
    } else {
        acts.len() == 0
    }
}

/// What handling a `BlockProposal` does: each carried transaction goes to
/// the mempool's admission interface, in order; nothing else.
pub open spec fn block_proposal_acts(acts: Seq<ActionView>, txs: Seq<Transaction>) -> bool {
    &&& acts.len() == txs.len()
    &&& forall|j: int|
        0 <= j < txs.len() ==> (#[trigger] acts[j]) == (ActionView::SubmitTransaction {
            transaction: txs[j],
        })
}

/// The reply batch owed to `peer` by the entries: for each entry whose id
/// the mempool now serves and whose peer set lists `peer`, the served
/// transaction, in entry order.
pub open spec fn batch_for(
    entries: Seq<(ProposalShortId, Seq<PeerIndex>)>,
    pool: Seq<Transaction>,
    peer: PeerIndex,
) -> Seq<Transaction>
    decreases entries.len(),
{
    if entries.len() == 0 {
        Seq::empty()
    } else {
        let rest = batch_for(entries.drop_first(), pool, peer);
        match pool_lookup(pool, entries[0].0) {
            Some(tx) => if entries[0].1.contains(peer) {
                seq![tx] + rest
            } else {
                rest
            },
            None => rest,
        }
    }
}

/// The action is one reply batch: a `BlockProposal` to its peer carrying
/// exactly what the entries owe that peer, and not empty.
pub open spec fn is_batch_send(
    a: ActionView,
    entries: Seq<(ProposalShortId, Seq<PeerIndex>)>,
    pool: Seq<Transaction>,
) -> bool {
    match a {
        ActionView::Send { peer, message } => match message {
            MessageView::BlockProposal { transactions } => transactions == batch_for(
                entries,
                pool,
                peer,
            ) && transactions.len() > 0,
            _ => false,
        },
        _ => false,
    }
}

/// The recipient of a send.
pub open spec fn send_peer(a: ActionView) -> PeerIndex {
    match a {
        ActionView::Send { peer, message } => peer,
        ActionView::SubmitBlock { peer, block } => peer,
        ActionView::SubmitTransaction { transaction } => 0,
    }
}

/// What the batch-timer tick does: every pending entry is dropped — the
/// protocol's one-shot retry window — and each peer owed a non-empty
/// batch receives it in exactly one `BlockProposal`; nothing else is
/// sent. The order of the sends is not fixed.
pub open spec fn prune_post(
    pre: RelayStateView,
    post: RelayStateView,
    acts: Seq<ActionView>,
    pool: Seq<Transaction>,
) -> bool {
    let entries = pre.pending_proposals_request;
    &&& post == (RelayStateView {
        pending_proposals_request: Seq::empty(),
        ..pre
    })
    &&& forall|q: int| 0 <= q < acts.len() ==> is_batch_send(#[trigger] acts[q], entries, pool)
    &&& forall|a: int, b: int|
        0 <= a < b < acts.len() ==> send_peer(#[trigger] acts[a]) != send_peer(#[trigger] acts[b])
    &&& forall|p: PeerIndex|
        #[trigger] batch_for(entries, pool, p).len() > 0 ==> exists|q: int|
            0 <= q < acts.len() && send_peer(#[trigger] acts[q]) == p
}

impl Relayer {
    /// Handles a `GetBlockProposal` request from `peer`. The block number
    /// only scopes the request on the wire; the lookup is by id.
    pub fn handle_get_block_proposal(
        &mut self,
        peer: PeerIndex,
        _block_number: u64,
        proposal_ids: &Vec<ProposalShortId>,
        pool: &Vec<Transaction>,
    ) -> (acts: Vec<RelayAction>)
        requires
            old(self).state.wf(),
        ensures
            final(self).state.wf(),
            get_block_proposal_post(
                old(self).state@,
                final(self).state@,
                acts_view(acts@),
                peer,
                proposal_ids@,
                pool@,
            ),
    {
        let ghost pre = self.state@;
        let ghost ids = proposal_ids@;
        let mut txs: Vec<Transaction> = Vec::new();
        let mut i: usize = 0;
        proof {
            assert(ids.skip(0) =~= ids);
            assert(txs@ + proposal_reply_txs(ids, pool@) =~= proposal_reply_txs(ids, pool@));
        }
        while i < proposal_ids.len()
            invariant
                self.state.wf(),
                pre == old(self).state@,
                ids == proposal_ids@,
                i <= ids.len(),
                self.state@ == (RelayStateView {
                    pending_proposals_request: self.state@.pending_proposals_request,
                    ..pre
                }),
                ppr_after_requests(
                    self.state@.pending_proposals_request,
                    ids.skip(i as int),
                    pool@,
                    peer,
                ) == ppr_after_requests(pre.pending_proposals_request, ids, pool@, peer),
                txs@ + proposal_reply_txs(ids.skip(i as int), pool@) == proposal_reply_txs(
                    ids,
                    pool@,
                ),
            decreases ids.len() - i,
        {
            let ghost tail = ids.skip(i as int);
            proof {
                assert(tail[0] == ids[i as int]);
                assert(tail.drop_first() =~= ids.skip(i as int + 1));
            }
            let id = proposal_ids[i];
            let ghost cur = self.state@.pending_proposals_request;
            let ghost txs0 = txs@;
            match pool_get(pool, &id) {
                Some(tx) => {
                    txs.push(tx);
                    proof {
                        assert(proposal_reply_txs(tail, pool@) == seq![tx] + proposal_reply_txs(
                            tail.drop_first(),
                            pool@,
                        ));
                        assert(txs@ + proposal_reply_txs(ids.skip(i as int + 1), pool@)
                            =~= txs0 + proposal_reply_txs(tail, pool@));
                    }
                },
                None => {
                    self.state.pending_proposals_request.record(id, peer);
                    proof {
                        lemma_record_fn(
                            cur,
                            self.state@.pending_proposals_request,
                            id,
                            peer,
                        );
                        assert(self.state@ =~= (RelayStateView {
                            pending_proposals_request: self.state@.pending_proposals_request,
                            ..pre
                        }));
                    }
                },
            }
            i += 1;
        }
        proof {
            assert(ids.skip(ids.len() as int) =~= Seq::<ProposalShortId>::empty());
            assert(txs@ + Seq::<Transaction>::empty() =~= txs@);
            assert(txs@ == proposal_reply_txs(ids, pool@));
        }
        let mut acts: Vec<RelayAction> = Vec::new();
        if txs.len() > 0 {
            acts.push(RelayAction::Send {
                peer,
                message: RelayMessage::BlockProposal { transactions: txs },
            });
            proof {
                assert(acts_view(acts@).len() == 1);
            }
        }
        acts
    }

    /// Handles a `BlockProposal`: every carried transaction is submitted
    /// to the mempool. Errors there are the mempool's to report; the
    /// relay state does not change.
    pub fn handle_block_proposal(&mut self, transactions: Vec<Transaction>) -> (acts: Vec<
        RelayAction,
    >)
        requires
            old(self).state.wf(),
        ensures
            final(self).state.wf(),
            final(self).state@ == old(self).state@,
            block_proposal_acts(acts_view(acts@), transactions@),
    {
        let mut acts: Vec<RelayAction> = Vec::new();
        let mut i: usize = 0;
        while i < transactions.len()
            invariant
                i <= transactions@.len(),
                acts@.len() == i as int,
                forall|j: int|
                    0 <= j < i ==> (#[trigger] acts@[j])@ == (ActionView::SubmitTransaction {
                        transaction: transactions@[j],
                    }),
            decreases transactions@.len() - i,
        {
            acts.push(RelayAction::SubmitTransaction { transaction: transactions[i] });
            i += 1;
        }
        acts
    }
}

/// Recording one request adds at most the recorded id, and under any id
/// at most the recording peer, to what stood there.
proof fn lemma_record_provenance(
    ppr: Seq<(ProposalShortId, Seq<PeerIndex>)>,
    id: ProposalShortId,
    peer: PeerIndex,
)
    requires
        ppr_wf(ppr),
    ensures
        ppr_wf(ppr_record_fn(ppr, id, peer)),
        forall|k: int|
            0 <= k < ppr_record_fn(ppr, id, peer).len() ==> ppr_has(
                ppr,
                (#[trigger] ppr_record_fn(ppr, id, peer)[k]).0,
            ) || ppr_record_fn(ppr, id, peer)[k].0 == id,
        forall|k: int, q: int|
            0 <= k < ppr_record_fn(ppr, id, peer).len() && 0 <= q < ppr_record_fn(
                ppr,
                id,
                peer,
            )[k].1.len() ==> peer_recorded(ppr, (#[trigger] ppr_record_fn(ppr, id, peer)[k]).0, (
            #[trigger] ppr_record_fn(ppr, id, peer)[k].1[q])) || ppr_record_fn(
                ppr,
                id,
                peer,
            )[k].1[q] == peer,
{
    let rec = ppr_record_fn(ppr, id, peer);
    if ppr_has(ppr, id) {
        let k0 = ppr_at(ppr, id);
        assert(0 <= k0 < ppr.len() && ppr[k0].0 == id);
        assert forall|k: int| 0 <= k < rec.len() implies ppr_has(ppr, (#[trigger] rec[k]).0)
            || rec[k].0 == id by {
            if k != k0 {
                assert(rec[k] == ppr[k]);
            }
        }
        assert forall|a: int, b: int| 0 <= a < b < rec.len() implies (#[trigger] rec[a]).0 != (
        #[trigger] rec[b]).0 by {
            assert(rec[a].0 == ppr[a].0);
            assert(rec[b].0 == ppr[b].0);
        }
        assert forall|k: int, a: int, b: int|
            0 <= k < rec.len() && 0 <= a < b < rec[k].1.len() implies (#[trigger] rec[k].1[a]) != (
        #[trigger] rec[k].1[b]) by {
            if k == k0 && !ppr[k0].1.contains(peer) {
                if b == ppr[k0].1.len() {
                    if ppr[k0].1[a] == peer {
                        assert(ppr[k0].1.contains(peer));
                    }
                } else {
                    assert(ppr[k].1[a] != ppr[k].1[b]);
                }
            } else {
                assert(rec[k] == ppr[k]);
                assert(ppr[k].1[a] != ppr[k].1[b]);
            }
        }
        assert forall|k: int, q: int|
            0 <= k < rec.len() && 0 <= q < rec[k].1.len() implies peer_recorded(
            ppr,
            (#[trigger] rec[k]).0,
            (#[trigger] rec[k].1[q]),
        ) || rec[k].1[q] == peer by {
            if k != k0 {
                assert(rec[k] == ppr[k]);
                assert(ppr_at(ppr, ppr[k].0) == k) by {
                    let w = ppr_at(ppr, ppr[k].0);
                    assert(ppr[k].0 == ppr[k].0);
                    assert(ppr_has(ppr, ppr[k].0));
                    assert(0 <= w < ppr.len() && ppr[w].0 == ppr[k].0);
                    if w < k {
                        assert(ppr[w].0 != ppr[k].0);
                    } else if w > k {
                        assert(ppr[k].0 != ppr[w].0);
                    }
                }
                assert(ppr_peers(ppr, ppr[k].0).contains(ppr[k].1[q]));
            } else {
                if q < ppr[k0].1.len() {
                    assert(rec[k0].1[q] == ppr[k0].1[q]);
                    assert(ppr_peers(ppr, id).contains(ppr[k0].1[q]));
                } else {
                    assert(rec[k0].1[q] == peer);
                }
            }
        }
    } else {
        assert forall|k: int| 0 <= k < rec.len() implies ppr_has(ppr, (#[trigger] rec[k]).0)
            || rec[k].0 == id by {
            if k < ppr.len() {
                assert(rec[k] == ppr[k]);
                assert(ppr_has(ppr, ppr[k].0));
            } else {
                assert(rec[k] == (id, seq![peer]));
            }
        }
        assert forall|a: int, b: int| 0 <= a < b < rec.len() implies (#[trigger] rec[a]).0 != (
        #[trigger] rec[b]).0 by {
            if b < ppr.len() {
                assert(rec[a] == ppr[a] && rec[b] == ppr[b]);
            } else {
                assert(rec[a] == ppr[a]);
                if ppr[a].0 == id {
                    assert(ppr_has(ppr, id));
                }
            }
        }
        assert forall|k: int, a: int, b: int|
            0 <= k < rec.len() && 0 <= a < b < rec[k].1.len() implies (#[trigger] rec[k].1[a]) != (
        #[trigger] rec[k].1[b]) by {
            if k < ppr.len() {
                assert(rec[k] == ppr[k]);
                assert(ppr[k].1[a] != ppr[k].1[b]);
            } else {
                assert(rec[k].1 == seq![peer]);
            }
        }
        assert forall|k: int, q: int|
            0 <= k < rec.len() && 0 <= q < rec[k].1.len() implies peer_recorded(
            ppr,
            (#[trigger] rec[k]).0,
            (#[trigger] rec[k].1[q]),
        ) || rec[k].1[q] == peer by {
            if k < ppr.len() {
                assert(rec[k] == ppr[k]);
                assert(ppr_at(ppr, ppr[k].0) == k) by {
                    let w = ppr_at(ppr, ppr[k].0);
                    assert(ppr_has(ppr, ppr[k].0));
                    assert(0 <= w < ppr.len() && ppr[w].0 == ppr[k].0);
                    if w < k {
                        assert(ppr[w].0 != ppr[k].0);
                    } else if w > k {
                        assert(ppr[k].0 != ppr[w].0);
                    }
                }
                assert(ppr_peers(ppr, ppr[k].0).contains(ppr[k].1[q]));
            } else {
                assert(rec[k].1[q] == peer);
            }
        }
    }
}

/// Whether `p` stands recorded under `id`.
pub open spec fn peer_recorded(
    ppr: Seq<(ProposalShortId, Seq<PeerIndex>)>,
    id: ProposalShortId,
    p: PeerIndex,
) -> bool {
    ppr_has(ppr, id) && crate::state::ppr_peers(ppr, id).contains(p)
}

/// Pending proposal requests arise only from requests: after a
/// `GetBlockProposal` for `ids` from `peer`, every entry either stood
/// there before or carries an asked id the mempool could not serve, and
/// every recorded peer either was recorded before or is the asking peer.
/// The batch timer then drops every entry, so a non-empty entry always
/// traces back to an ask not yet served on the latest tick.
pub proof fn lemma_pending_requests_provenance(
    ppr: Seq<(ProposalShortId, Seq<PeerIndex>)>,
    ids: Seq<ProposalShortId>,
    pool: Seq<Transaction>,
    peer: PeerIndex,
)
    requires
        ppr_wf(ppr),
    ensures
        ppr_wf(ppr_after_requests(ppr, ids, pool, peer)),
        forall|k: int|
            0 <= k < ppr_after_requests(ppr, ids, pool, peer).len() ==> ppr_has(
                ppr,
                (#[trigger] ppr_after_requests(ppr, ids, pool, peer)[k]).0,
            ) || (ids.contains(ppr_after_requests(ppr, ids, pool, peer)[k].0)
                && !pool_has_proposal(pool, ppr_after_requests(ppr, ids, pool, peer)[k].0)),
        forall|k: int, q: int|
            0 <= k < ppr_after_requests(ppr, ids, pool, peer).len() && 0 <= q
                < ppr_after_requests(ppr, ids, pool, peer)[k].1.len() ==> peer_recorded(
                ppr,
                (#[trigger] ppr_after_requests(ppr, ids, pool, peer)[k]).0,
                (#[trigger] ppr_after_requests(ppr, ids, pool, peer)[k].1[q]),
            ) || ppr_after_requests(ppr, ids, pool, peer)[k].1[q] == peer,
    decreases ids.len(),
{
    if ids.len() > 0 {
        let id0 = ids[0];
        let rest = ids.drop_first();
        let after = ppr_after_requests(ppr, ids, pool, peer);
        assert(ids[0] == id0);
        if pool_lookup(pool, id0) is Some {
            lemma_pending_requests_provenance(ppr, rest, pool, peer);
            assert forall|k: int| 0 <= k < after.len() implies ppr_has(
                ppr,
                (#[trigger] after[k]).0,
            ) || (ids.contains(after[k].0) && !pool_has_proposal(pool, after[k].0)) by {
                if !ppr_has(ppr, after[k].0) {
                    assert(rest.contains(after[k].0));
                    let w = choose|w: int| 0 <= w < rest.len() && rest[w] == after[k].0;
                    assert(ids[w + 1] == after[k].0);
                    assert(ids.contains(after[k].0));
                }
            }
        } else {
            let next = ppr_record_fn(ppr, id0, peer);
            lemma_record_provenance(ppr, id0, peer);
            lemma_pending_requests_provenance(next, rest, pool, peer);
            assert forall|k: int| 0 <= k < after.len() implies ppr_has(
                ppr,
                (#[trigger] after[k]).0,
            ) || (ids.contains(after[k].0) && !pool_has_proposal(pool, after[k].0)) by {
                let x = after[k].0;
                if ppr_has(next, x) {
                    let w = choose|w: int| 0 <= w < next.len() && (#[trigger] next[w]).0 == x;
                    assert(ppr_has(ppr, next[w].0) || next[w].0 == id0);
                    if !ppr_has(ppr, x) {
                        assert(x == id0);
                        assert(ids.contains(x));
                    }
                } else {
                    assert(rest.contains(x));
                    let w = choose|w: int| 0 <= w < rest.len() && rest[w] == x;
                    assert(ids[w + 1] == x);
                    assert(ids.contains(x));
                }
            }
            assert forall|k: int, q: int|
                0 <= k < after.len() && 0 <= q < after[k].1.len() implies peer_recorded(
                ppr,
                (#[trigger] after[k]).0,
                (#[trigger] after[k].1[q]),
            ) || after[k].1[q] == peer by {
                let x = after[k].0;
                let p = after[k].1[q];
                if p != peer {
                    assert(peer_recorded(next, x, p));
                    let kn = ppr_at(next, x);
                    assert(0 <= kn < next.len() && next[kn].0 == x);
                    assert(ppr_peers(next, x).contains(p));
                    let qn = choose|qn: int|
                        0 <= qn < next[kn].1.len() && (#[trigger] next[kn].1[qn]) == p;
                    assert(peer_recorded(ppr, next[kn].0, next[kn].1[qn]) || next[kn].1[qn]
                        == peer);
                    assert(peer_recorded(ppr, x, p));
                }
            }
        }
    }
}

impl Relayer {
    /// The batch-timer tick: serves every pending proposal request the
    /// mempool can now answer, one `BlockProposal` per peer, and drops
    /// every entry — served or not. The asking peer re-asks if need be.
    pub fn prune_tx_proposal_request(&mut self, pool: &Vec<Transaction>) -> (acts: Vec<
        RelayAction,
    >)
        requires
            old(self).state.wf(),
        ensures
            final(self).state.wf(),
            prune_post(old(self).state@, final(self).state@, acts_view(acts@), pool@),
    {
        let ghost pre = self.state@;
        let ghost entries = pre.pending_proposals_request;
        let mut batches = PeerBatches::new();
        let n = self.state.pending_proposals_request.len();
        let mut k: usize = 0;
        proof {
            assert(entries.skip(0) =~= entries);
            assert forall|p: PeerIndex| (#[trigger] pb_batch(batches@, p)) + batch_for(
                entries.skip(0),
                pool@,
                p,
            ) == batch_for(entries, pool@, p) by {
                assert(pb_batch(batches@, p) + batch_for(entries, pool@, p) =~= batch_for(
                    entries,
                    pool@,
                    p,
                ));
            }
        }
        while k < n
            invariant
                self.state.wf(),
                pre == old(self).state@,
                self.state@ == pre,
                entries == pre.pending_proposals_request,
                n == entries.len(),
                k <= n,
                batches.wf(),
                forall|p: PeerIndex| (#[trigger] pb_batch(batches@, p)) + batch_for(
                    entries.skip(k as int),
                    pool@,
                    p,
                ) == batch_for(entries, pool@, p),
            decreases n - k,
        {
            let ghost tail = entries.skip(k as int);
            proof {
                assert(tail[0] == entries[k as int]);
                assert(tail.drop_first() =~= entries.skip(k as int + 1));
            }
            let id = self.state.pending_proposals_request.id_at(k);
            match pool_get(pool, &id) {
                None => {
                    proof {
                        assert forall|p: PeerIndex| (#[trigger] pb_batch(batches@, p)) + batch_for(
                            entries.skip(k as int + 1),
                            pool@,
                            p,
                        ) == batch_for(entries, pool@, p) by {
                            assert(batch_for(tail, pool@, p) == batch_for(
                                tail.drop_first(),
                                pool@,
                                p,
                            ));
                            assert(pb_batch(batches@, p) + batch_for(tail, pool@, p) == batch_for(
                                entries,
                                pool@,
                                p,
                            ));
                        }
                    }
                },
                Some(tx) => {
                    let m = self.state.pending_proposals_request.peers_len(k);
                    let ghost b0 = batches@;
                    let ghost plist = entries[k as int].1;
                    let mut j: usize = 0;
                    proof {
                        assert(plist.take(0) =~= Seq::<PeerIndex>::empty());
                    }
                    while j < m
                        invariant
                            self.state.wf(),
                            pre == old(self).state@,
                            self.state@ == pre,
                            entries == pre.pending_proposals_request,
                            k < entries.len(),
                            plist == entries[k as int].1,
                            m == plist.len(),
                            j <= m,
                            batches.wf(),
                            forall|p: PeerIndex| (#[trigger] pb_batch(b0, p)) + batch_for(
                                entries.skip(k as int),
                                pool@,
                                p,
                            ) == batch_for(entries, pool@, p),
                            forall|p: PeerIndex|
                                plist.take(j as int).contains(p) ==> (#[trigger] pb_batch(
                                    batches@,
                                    p,
                                )) == pb_batch(b0, p).push(tx),
                            forall|p: PeerIndex|
                                !plist.take(j as int).contains(p) ==> (#[trigger] pb_batch(
                                    batches@,
                                    p,
                                )) == pb_batch(b0, p),
                        decreases m - j,
                    {
                        let pj = self.state.pending_proposals_request.peer_at(k, j);
                        proof {
                            assert(pj == plist[j as int]);
                            if plist.take(j as int).contains(pj) {
                                let q = choose|q: int|
                                    0 <= q < plist.take(j as int).len() && plist.take(j as int)[q]
                                        == pj;
                                assert(plist[q] == pj);
                                assert((entries[k as int]).1[q] != (entries[k as int]).1[j as int]);
                                assert(false);
                            }
                        }
                        let ghost bprev = batches@;
                        batches.append(pj, tx);
                        proof {
                            assert(plist.take(j as int + 1) =~= plist.take(j as int).push(pj));
                            assert(pb_batch(bprev, pj) == pb_batch(b0, pj));
                            assert forall|p: PeerIndex| plist.take(j as int + 1).contains(
                                p,
                            ) implies (#[trigger] pb_batch(batches@, p)) == pb_batch(b0, p).push(
                                tx,
                            ) by {
                                if p == pj {
                                    assert(pb_batch(batches@, pj) == pb_batch(bprev, pj).push(tx));
                                } else {
                                    let q = choose|q: int|
                                        0 <= q < plist.take(j as int + 1).len() && (
                                        #[trigger] plist.take(j as int + 1)[q]) == p;
                                    assert(q < j);
                                    assert(plist.take(j as int)[q] == p);
                                    assert(plist.take(j as int).contains(p));
                                    assert(pb_batch(bprev, p) == pb_batch(b0, p).push(tx));
                                    assert(pb_batch(batches@, p) == pb_batch(bprev, p));
                                }
                            }
                            assert forall|p: PeerIndex| !plist.take(j as int + 1).contains(
                                p,
                            ) implies (#[trigger] pb_batch(batches@, p)) == pb_batch(b0, p) by {
                                assert(plist.take(j as int + 1)[j as int] == pj);
                                assert(plist.take(j as int + 1).contains(pj));
                                assert(p != pj);
                                if plist.take(j as int).contains(p) {
                                    let q = choose|q: int|
                                        0 <= q < plist.take(j as int).len() && plist.take(
                                            j as int,
                                        )[q] == p;
                                    assert(plist.take(j as int + 1)[q] == p);
                                    assert(plist.take(j as int + 1).contains(p));
                                    assert(false);
                                }
                                assert(pb_batch(bprev, p) == pb_batch(b0, p));
                                assert(pb_batch(batches@, p) == pb_batch(bprev, p));
                            }
                        }
                        j += 1;
                    }
                    proof {
                        assert(plist.take(m as int) =~= plist);
                        assert forall|p: PeerIndex| (#[trigger] pb_batch(batches@, p)) + batch_for(
                            entries.skip(k as int + 1),
                            pool@,
                            p,
                        ) == batch_for(entries, pool@, p) by {
                            assert(pool_lookup(pool@, tail[0].0) == Some(tx));
                            let rest = batch_for(tail.drop_first(), pool@, p);
                            assert(pb_batch(b0, p) + batch_for(tail, pool@, p) == batch_for(
                                entries,
                                pool@,
                                p,
                            ));
                            if plist.contains(p) {
                                assert(batch_for(tail, pool@, p) == seq![tx] + rest);
                                assert(pb_batch(batches@, p) == pb_batch(b0, p).push(tx));
                                assert(pb_batch(b0, p).push(tx) + rest =~= pb_batch(b0, p) + (
                                seq![tx] + rest));
                            } else {
                                assert(batch_for(tail, pool@, p) == rest);
                                assert(pb_batch(batches@, p) == pb_batch(b0, p));
                            }
                        }
                    }
                },
            }
            k += 1;
        }
        proof {
            assert(entries.skip(n as int) =~= Seq::<(ProposalShortId, Seq<PeerIndex>)>::empty());
            assert forall|p: PeerIndex| #[trigger] pb_batch(batches@, p) == batch_for(
                entries,
                pool@,
                p,
            ) by {
                assert(pb_batch(batches@, p) + batch_for(entries.skip(n as int), pool@, p)
                    == batch_for(entries, pool@, p));
                assert(pb_batch(batches@, p) + Seq::<Transaction>::empty() =~= pb_batch(
                    batches@,
                    p,
                ));
            }
        }
        self.state.pending_proposals_request.clear();
        let ghost post_state = self.state@;
        proof {
            assert(post_state =~= (RelayStateView {
                pending_proposals_request: Seq::<(ProposalShortId, Seq<PeerIndex>)>::empty(),
                ..pre
            }));
        }
        let ghost bfinal = batches@;
        let mut bvec = batches.into_vec();
        let mut acts: Vec<RelayAction> = Vec::new();
        proof {
            assert(bfinal.take(bvec@.len() as int) =~= bfinal);
        }
        while bvec.len() > 0
            invariant
                self.state.wf(),
                pre == old(self).state@,
                self.state@ == post_state,
                post_state == (RelayStateView {
                    pending_proposals_request: Seq::<(ProposalShortId, Seq<PeerIndex>)>::empty(),
                    ..pre
                }),
                entries == pre.pending_proposals_request,
                pb_view(bvec@) == bfinal.take(bvec@.len() as int),
                crate::state::pb_wf(bfinal),
                forall|p: PeerIndex|
                    #[trigger] pb_batch(bfinal, p) == batch_for(entries, pool@, p),
                acts@.len() + bvec@.len() == bfinal.len(),
                forall|q: int|
                    0 <= q < acts@.len() ==> (#[trigger] acts@[q])@ == (ActionView::Send {
                        peer: bfinal[bfinal.len() - 1 - q].0,
                        message: MessageView::BlockProposal {
                            transactions: bfinal[bfinal.len() - 1 - q].1,
                        },
                    }),
            decreases bvec@.len(),
        {
            let ghost prevb = bvec@;
            match bvec.pop() {
                Some(e) => {
                    proof {
                        assert(e == prevb.last());
                        assert(pb_view(prevb)[prevb.len() - 1] == (e.0, e.1@));
                        assert(bfinal[prevb.len() - 1] == (e.0, e.1@));
                        assert(pb_view(bvec@) =~= bfinal.take(bvec@.len() as int));
                    }
                    acts.push(RelayAction::Send {
                        peer: e.0,
                        message: RelayMessage::BlockProposal { transactions: e.1 },
                    });
                },
                None => {
                    proof {
                        assert(false);
                    }
                },
            }
        }
        proof {
            let av = acts_view(acts@);
            assert(av.len() == bfinal.len());
            assert forall|q: int| 0 <= q < av.len() implies is_batch_send(
                #[trigger] av[q],
                entries,
                pool@,
            ) by {
                let i = bfinal.len() - 1 - q;
                assert(av[q] == acts@[q]@);
                let p = bfinal[i].0;
                let w = crate::state::pb_at(bfinal, p);
                assert(bfinal[i].0 == p);
                assert(crate::state::pb_has(bfinal, p));
                assert(0 <= w < bfinal.len() && bfinal[w].0 == p);
                if w < i {
                    assert(bfinal[w].0 != bfinal[i].0);
                } else if w > i {
                    assert(bfinal[i].0 != bfinal[w].0);
                }
                assert(w == i);
                assert(pb_batch(bfinal, p) == bfinal[i].1);
                assert(bfinal[i].1.len() > 0);
            }
            assert forall|a: int, b: int| 0 <= a < b < av.len() implies send_peer(
                #[trigger] av[a],
            ) != send_peer(#[trigger] av[b]) by {
                let ia = bfinal.len() - 1 - a;
                let ib = bfinal.len() - 1 - b;
                assert(send_peer(av[a]) == bfinal[ia].0);
                assert(send_peer(av[b]) == bfinal[ib].0);
                assert(bfinal[ib].0 != bfinal[ia].0);
            }
            assert forall|p: PeerIndex| #[trigger] batch_for(entries, pool@, p).len()
                > 0 implies exists|q: int|
                0 <= q < av.len() && send_peer(#[trigger] av[q]) == p by {
                assert(pb_batch(bfinal, p) == batch_for(entries, pool@, p));
                if !crate::state::pb_has(bfinal, p) {
                    assert(pb_batch(bfinal, p) == Seq::<Transaction>::empty());
                    assert(false);
                }
                let i = crate::state::pb_at(bfinal, p);
                assert(0 <= i < bfinal.len() && bfinal[i].0 == p);
                let q = bfinal.len() - 1 - i;
                assert(send_peer(av[q]) == p);
            }
        }
        acts
    }

    /// Routes an inbound message from `peer` to its handler. The
    /// application supplies the collaborators' answers the handler needs:
    /// whether the header's proof-of-work verifies (read only for a
    /// compact block), the mempool snapshot, and the block looked up in
    /// chain storage (read only for a `GetBlockTransactions`).
    pub fn process(
        &mut self,
        peer: PeerIndex,
        message: RelayMessage,
        pow_valid: bool,
        pool: &Vec<Transaction>,
        stored: Option<&Block>,
    ) -> (acts: Vec<RelayAction>)
        requires
            old(self).state.wf(),
        ensures
            final(self).state.wf(),
            match message@ {
                MessageView::CompactBlock(cb) => compact_block_post(
                    old(self).state@,
                    final(self).state@,
                    acts_view(acts@),
                    peer,
                    cb,
                    pow_valid,
                    pool@,
                ),
                MessageView::Transaction(tx) => transaction_post(
                    old(self).state@,
                    final(self).state@,
                    acts_view(acts@),
                    tx,
                ),
                MessageView::GetBlockTransactions { block_hash, indexes } => final(self).state@
                    == old(self).state@ && get_block_transactions_post(
                    acts_view(acts@),
                    peer,
                    block_hash,
                    indexes,
                    match stored {
                        Some(b) => Some(b@),
                        None => None,
                    },
                ),
                MessageView::BlockTransactions { block_hash, transactions } =>
                    block_transactions_post(
                    old(self).state@,
                    final(self).state@,
                    acts_view(acts@),
                    peer,
                    block_hash,
                    transactions,
                    pool@,
                ),
                MessageView::GetBlockProposal { block_number, proposal_ids } =>
                    get_block_proposal_post(
                    old(self).state@,
                    final(self).state@,
                    acts_view(acts@),
                    peer,
                    proposal_ids,
                    pool@,
                ),
                MessageView::BlockProposal { transactions } => final(self).state@ == old(
                    self,
                ).state@ && block_proposal_acts(acts_view(acts@), transactions),
            },
    {
        match message {
            RelayMessage::CompactBlock(block) => self.handle_compact_block(
                peer,
                block,
                pow_valid,
                pool,
            ),
            RelayMessage::Transaction(tx) => self.handle_transaction(tx),
            RelayMessage::GetBlockTransactions { block_hash, indexes } => self
                .handle_get_block_transactions(peer, block_hash, &indexes, stored),
            RelayMessage::BlockTransactions { block_hash, transactions } => self
                .handle_block_transactions(peer, block_hash, transactions, pool),
            RelayMessage::GetBlockProposal { block_number, proposal_ids } => self
                .handle_get_block_proposal(peer, block_number, &proposal_ids, pool),
            RelayMessage::BlockProposal { transactions } => self.handle_block_proposal(
                transactions,
            ),
        }
    }
}

} // verus!
