use compact_relay::block::{CompactBlock, PrefilledTransaction, UncleBlock};
use compact_relay::relayer::{RelayAction, RelayMessage, Relayer};
use compact_relay::reconstruct::reconstruct_block;
use compact_relay::short_id::{short_transaction_id, short_transaction_id_keys, ShortId};
use compact_relay::types::{proposal_short_id, H256, Header, ProposalShortId, Transaction};

fn h(n: u64) -> H256 {
    H256 { w0: n, w1: n ^ 0x5a5a, w2: n.wrapping_mul(7), w3: !n }
}

fn tx(n: u64) -> Transaction {
    Transaction { hash: h(n) }
}

fn header(nonce: u64, number: u64, hash_seed: u64) -> Header {
    Header { hash: h(hash_seed), nonce, number }
}

fn sid_for(header_nonce: u64, cb_nonce: u64, t: &Transaction) -> ShortId {
    let (k0, k1) = short_transaction_id_keys(header_nonce, cb_nonce);
    short_transaction_id(k0, k1, &t.hash)
}

fn compact(
    hdr: Header,
    nonce: u64,
    prefilled: Vec<(usize, Transaction)>,
    short_ids: Vec<ShortId>,
    proposals: Vec<ProposalShortId>,
    uncles: Vec<UncleBlock>,
) -> CompactBlock {
    CompactBlock {
        header: hdr,
        nonce,
        short_ids,
        prefilled_transactions: prefilled
            .into_iter()
            .map(|(index, transaction)| PrefilledTransaction { index, transaction })
            .collect(),
        uncles,
        proposal_transactions: proposals,
    }
}

#[test]
fn full_mempool_hit_submits_block() {
    // mempool holds T1 and T2; the compact block prefills only the cellbase
    let hdr = header(0x1111, 5, 900);
    let cellbase = tx(1);
    let t1 = tx(2);
    let t2 = tx(3);
    let pool = vec![t1, t2];
    let cb = compact(
        hdr,
        0x2222,
        vec![(0, cellbase)],
        vec![sid_for(0x1111, 0x2222, &t1), sid_for(0x1111, 0x2222, &t2)],
        vec![],
        vec![],
    );
    let mut relayer = Relayer::new();
    let acts = relayer.handle_compact_block(7, cb, true, &pool);
    assert_eq!(acts.len(), 2);
    match &acts[1] {
        RelayAction::SubmitBlock { peer, block } => {
            assert_eq!(*peer, 7);
            assert_eq!(block.header, hdr);
            assert_eq!(block.commit_transactions, vec![cellbase, t1, t2]);
        },
        _ => panic!("expected a block submission"),
    }
    assert!(relayer.state.received_blocks.contains(&hdr.hash));
    assert!(!relayer.state.pending_compact_blocks.contains(&hdr.hash));
}

#[test]
fn single_miss_requests_missing_indexes() {
    // mempool holds only T1: position 2 stays open
    let hdr = header(0x1111, 5, 901);
    let cellbase = tx(1);
    let t1 = tx(2);
    let t2 = tx(3);
    let pool = vec![t1];
    let cb = compact(
        hdr,
        0x2222,
        vec![(0, cellbase)],
        vec![sid_for(0x1111, 0x2222, &t1), sid_for(0x1111, 0x2222, &t2)],
        vec![],
        vec![],
    );
    let mut relayer = Relayer::new();
    let acts = relayer.handle_compact_block(7, cb, true, &pool);
    assert_eq!(acts.len(), 2);
    match &acts[1] {
        RelayAction::Send { peer, message } => {
            assert_eq!(*peer, 7);
            match message {
                RelayMessage::GetBlockTransactions { block_hash, indexes } => {
                    assert_eq!(*block_hash, hdr.hash);
                    assert_eq!(indexes, &vec![2usize]);
                },
                _ => panic!("expected a GetBlockTransactions request"),
            }
        },
        _ => panic!("expected a send"),
    }
    assert!(relayer.state.pending_compact_blocks.contains(&hdr.hash));
    assert!(!relayer.state.received_blocks.contains(&hdr.hash));
}

#[test]
fn completion_via_block_transactions() {
    // continuing the single miss: the peer supplies T2
    let hdr = header(0x1111, 5, 902);
    let cellbase = tx(1);
    let t1 = tx(2);
    let t2 = tx(3);
    let pool = vec![t1];
    let cb = compact(
        hdr,
        0x2222,
        vec![(0, cellbase)],
        vec![sid_for(0x1111, 0x2222, &t1), sid_for(0x1111, 0x2222, &t2)],
        vec![],
        vec![],
    );
    let mut relayer = Relayer::new();
    relayer.handle_compact_block(7, cb, true, &pool);
    assert!(relayer.state.pending_compact_blocks.contains(&hdr.hash));
    let acts = relayer.handle_block_transactions(7, hdr.hash, vec![t2], &pool);
    assert_eq!(acts.len(), 1);
    match &acts[0] {
        RelayAction::SubmitBlock { peer, block } => {
            assert_eq!(*peer, 7);
            assert_eq!(block.commit_transactions, vec![cellbase, t1, t2]);
        },
        _ => panic!("expected a block submission"),
    }
    assert!(!relayer.state.pending_compact_blocks.contains(&hdr.hash));
    assert!(relayer.state.received_blocks.contains(&hdr.hash));
}

#[test]
fn block_transactions_without_pending_is_dropped() {
    let mut relayer = Relayer::new();
    let acts = relayer.handle_block_transactions(3, h(77), vec![tx(5)], &vec![]);
    assert!(acts.is_empty());
}

#[test]
fn proposal_batching_over_timer() {
    // peer A asks for two proposal ids the mempool lacks; one arrives
    // before the next tick
    let tx1 = tx(41);
    let tx2 = tx(42);
    let pid1 = proposal_short_id(&tx1.hash);
    let pid2 = proposal_short_id(&tx2.hash);
    let mut relayer = Relayer::new();
    let acts = relayer.handle_get_block_proposal(9, 42, &vec![pid1, pid2], &vec![]);
    assert!(acts.is_empty());
    let pool = vec![tx1];
    let acts = relayer.prune_tx_proposal_request(&pool);
    assert_eq!(acts.len(), 1);
    match &acts[0] {
        RelayAction::Send { peer, message } => {
            assert_eq!(*peer, 9);
            match message {
                RelayMessage::BlockProposal { transactions } => {
                    assert_eq!(transactions, &vec![tx1]);
                },
                _ => panic!("expected a BlockProposal"),
            }
        },
        _ => panic!("expected a send"),
    }
    // every entry is dropped, served or not: the one-shot retry window
    assert_eq!(relayer.state.pending_proposals_request.len(), 0);
    let acts = relayer.prune_tx_proposal_request(&pool);
    assert!(acts.is_empty());
}

#[test]
fn get_block_proposal_served_from_mempool_at_once() {
    let tx1 = tx(51);
    let pid1 = proposal_short_id(&tx1.hash);
    let mut relayer = Relayer::new();
    let pool = vec![tx1];
    let acts = relayer.handle_get_block_proposal(4, 10, &vec![pid1], &pool);
    assert_eq!(acts.len(), 1);
    match &acts[0] {
        RelayAction::Send { peer, message } => {
            assert_eq!(*peer, 4);
            match message {
                RelayMessage::BlockProposal { transactions } => {
                    assert_eq!(transactions, &vec![tx1]);
                },
                _ => panic!("expected a BlockProposal"),
            }
        },
        _ => panic!("expected a send"),
    }
    assert_eq!(relayer.state.pending_proposals_request.len(), 0);
}

#[test]
fn duplicate_compact_block_is_suppressed() {
    // the second delivery of one header hash is a no-op
    let hdr = header(0x1111, 5, 903);
    let cellbase = tx(1);
    let pool = vec![];
    let cb = compact(hdr, 0x2222, vec![(0, cellbase)], vec![], vec![], vec![]);
    let cb2 = compact(hdr, 0x2222, vec![(0, cellbase)], vec![], vec![], vec![]);
    let mut relayer = Relayer::new();
    let first = relayer.handle_compact_block(1, cb, true, &pool);
    assert_eq!(first.len(), 2);
    let submissions = first
        .iter()
        .filter(|a| matches!(a, RelayAction::SubmitBlock { .. }))
        .count();
    assert_eq!(submissions, 1);
    let second = relayer.handle_compact_block(2, cb2, true, &pool);
    assert!(second.is_empty());
}

#[test]
fn pow_failure_drops_block() {
    let hdr = header(0x1111, 5, 904);
    let cb = compact(hdr, 0x2222, vec![(0, tx(1))], vec![], vec![], vec![]);
    let mut relayer = Relayer::new();
    let acts = relayer.handle_compact_block(1, cb, false, &vec![]);
    assert!(acts.is_empty());
    assert!(!relayer.state.received_blocks.contains(&hdr.hash));
    assert!(!relayer.state.pending_compact_blocks.contains(&hdr.hash));
}

#[test]
fn malformed_prefilled_indices_drop_block() {
    // a prefilled index below the running position is malformed
    let hdr = header(0x1111, 5, 905);
    let cb = compact(hdr, 0x2222, vec![(1, tx(1)), (0, tx(2))], vec![], vec![], vec![]);
    assert!(!cb.is_well_formed());
    let mut relayer = Relayer::new();
    let acts = relayer.handle_compact_block(1, cb, true, &vec![]);
    assert!(acts.is_empty());
    assert!(!relayer.state.received_blocks.contains(&hdr.hash));
}

#[test]
fn all_prefilled_reconstructs_without_mempool() {
    // empty short ids: reconstruction cannot need the mempool
    let hdr = header(0xa, 1, 906);
    let a = tx(11);
    let b = tx(12);
    let cb = compact(hdr, 0xb, vec![(0, a), (1, b)], vec![], vec![], vec![]);
    let (block, missing) = reconstruct_block(&cb, vec![], &vec![]);
    assert!(missing.is_none());
    assert_eq!(block.unwrap().commit_transactions, vec![a, b]);
}

#[test]
fn short_id_only_reconstruction_needs_every_transaction() {
    // only the cellbase is prefilled: success iff the mempool has the rest
    let hdr = header(0xa, 1, 907);
    let cellbase = tx(21);
    let t1 = tx(22);
    let t2 = tx(23);
    let sids = vec![sid_for(0xa, 0xb, &t1), sid_for(0xa, 0xb, &t2)];
    let cb = compact(hdr, 0xb, vec![(0, cellbase)], sids.clone(), vec![], vec![]);
    let (block, missing) = reconstruct_block(&cb, vec![], &vec![t1]);
    assert!(block.is_none());
    assert_eq!(missing.unwrap(), vec![2usize]);
    let cb2 = compact(hdr, 0xb, vec![(0, cellbase)], sids, vec![], vec![]);
    let (block, missing) = reconstruct_block(&cb2, vec![], &vec![t1, t2]);
    assert!(missing.is_none());
    assert_eq!(block.unwrap().commit_transactions, vec![cellbase, t1, t2]);
}

#[test]
fn round_trip_with_exact_missing_set() {
    // the sender's list comes back whole once the missing set is supplied
    let hdr = header(0x77, 9, 908);
    let orig = vec![tx(31), tx(32), tx(33), tx(34)];
    let sids: Vec<ShortId> = orig[1..].iter().map(|t| sid_for(0x77, 0x88, t)).collect();
    let cb = compact(hdr, 0x88, vec![(0, orig[0])], sids.clone(), vec![], vec![]);
    let (_, missing) = reconstruct_block(&cb, vec![], &vec![orig[2]]);
    assert_eq!(missing.unwrap(), vec![1usize, 3usize]);
    let cb2 = compact(hdr, 0x88, vec![(0, orig[0])], sids, vec![], vec![]);
    let (block, missing) = reconstruct_block(&cb2, vec![orig[1], orig[3]], &vec![orig[2]]);
    assert!(missing.is_none());
    assert_eq!(block.unwrap().commit_transactions, orig);
}

#[test]
fn duplicate_short_id_resolves_only_once() {
    // a consumed candidate no longer serves a later copy of its short id
    let hdr = header(0xa, 1, 909);
    let t1 = tx(61);
    let s = sid_for(0xa, 0xb, &t1);
    let cb = compact(hdr, 0xb, vec![(0, tx(60))], vec![s, s], vec![], vec![]);
    let (block, missing) = reconstruct_block(&cb, vec![], &vec![t1]);
    assert!(block.is_none());
    assert_eq!(missing.unwrap(), vec![2usize]);
}

#[test]
fn proposal_requests_deduplicate_across_blocks() {
    // an id already in flight is not requested again
    let t1 = tx(71);
    let t2 = tx(72);
    let pid1 = proposal_short_id(&t1.hash);
    let pid2 = proposal_short_id(&t2.hash);
    let mut relayer = Relayer::new();
    let hdr1 = header(0x1, 1, 910);
    let cb1 = compact(hdr1, 0x2, vec![(0, tx(70))], vec![], vec![pid1, pid1], vec![]);
    let acts = relayer.handle_compact_block(1, cb1, true, &vec![]);
    match &acts[0] {
        RelayAction::Send { message, .. } => match message {
            RelayMessage::GetBlockProposal { block_number, proposal_ids } => {
                assert_eq!(*block_number, 1);
                // the duplicate inside one block is requested once
                assert_eq!(proposal_ids, &vec![pid1]);
            },
            _ => panic!("expected a GetBlockProposal"),
        },
        _ => panic!("expected a send"),
    }
    let hdr2 = header(0x3, 2, 911);
    let uncle = UncleBlock { header: header(0x5, 1, 912), proposal_transactions: vec![pid2] };
    let cb2 = compact(hdr2, 0x4, vec![(0, tx(73))], vec![], vec![pid1], vec![uncle]);
    let acts = relayer.handle_compact_block(2, cb2, true, &vec![]);
    match &acts[0] {
        RelayAction::Send { message, .. } => match message {
            RelayMessage::GetBlockProposal { proposal_ids, .. } => {
                // pid1 is in flight already; the uncle's pid2 is new
                assert_eq!(proposal_ids, &vec![pid2]);
            },
            _ => panic!("expected a GetBlockProposal"),
        },
        _ => panic!("expected a send"),
    }
}

#[test]
fn gossiped_transaction_deduplicates() {
    let t1 = tx(81);
    let mut relayer = Relayer::new();
    let acts = relayer.handle_transaction(t1);
    assert_eq!(acts.len(), 1);
    assert!(matches!(
        acts[0],
        RelayAction::SubmitTransaction { transaction } if transaction == t1
    ));
    let acts = relayer.handle_transaction(t1);
    assert!(acts.is_empty());
}

#[test]
fn get_block_transactions_served_from_storage() {
    let hdr = header(0x1, 1, 913);
    let commits = vec![tx(91), tx(92), tx(93)];
    let block = compact_relay::block::Block {
        header: hdr,
        uncles: vec![],
        commit_transactions: commits.clone(),
        proposal_transactions: vec![],
    };
    let relayer = Relayer::new();
    let acts = relayer.handle_get_block_transactions(5, hdr.hash, &vec![2, 0], Some(&block));
    assert_eq!(acts.len(), 1);
    match &acts[0] {
        RelayAction::Send { peer, message } => {
            assert_eq!(*peer, 5);
            match message {
                RelayMessage::BlockTransactions { block_hash, transactions } => {
                    assert_eq!(*block_hash, hdr.hash);
                    assert_eq!(transactions, &vec![commits[2], commits[0]]);
                },
                _ => panic!("expected a BlockTransactions"),
            }
        },
        _ => panic!("expected a send"),
    }
    // an out-of-range index omits the reply; an absent block drops it
    let acts = relayer.handle_get_block_transactions(5, hdr.hash, &vec![3], Some(&block));
    assert!(acts.is_empty());
    let acts = relayer.handle_get_block_transactions(5, hdr.hash, &vec![0], None);
    assert!(acts.is_empty());
}

#[test]
fn block_proposal_submits_each_transaction() {
    let mut relayer = Relayer::new();
    let txs = vec![tx(95), tx(96)];
    let acts = relayer.handle_block_proposal(txs.clone());
    assert_eq!(acts.len(), 2);
    for (act, t) in acts.iter().zip(txs.iter()) {
        assert!(matches!(
            act,
            RelayAction::SubmitTransaction { transaction } if transaction == t
        ));
    }
}

#[test]
fn dispatcher_routes_by_payload() {
    let mut relayer = Relayer::new();
    let t1 = tx(97);
    let acts = relayer.process(1, RelayMessage::Transaction(t1), true, &vec![], None);
    assert_eq!(acts.len(), 1);
    let acts = relayer.process(1, RelayMessage::Transaction(t1), true, &vec![], None);
    assert!(acts.is_empty());
    let acts = relayer.process(
        2,
        RelayMessage::BlockProposal { transactions: vec![tx(98)] },
        true,
        &vec![],
        None,
    );
    assert_eq!(acts.len(), 1);
}

#[test]
fn empty_compact_block_reconstructs_empty() {
    // no prefilled entries and no short ids: an empty commit list, left
    // for the verifier downstream to reject
    let hdr = header(0xa, 1, 915);
    let cb = compact(hdr, 0xb, vec![], vec![], vec![], vec![]);
    assert!(cb.is_well_formed());
    let (block, missing) = reconstruct_block(&cb, vec![], &vec![]);
    assert!(missing.is_none());
    assert!(block.unwrap().commit_transactions.is_empty());
}

#[test]
fn dispatcher_routes_requests_and_replies() {
    let hdr = header(0x1, 1, 916);
    let commits = vec![tx(120), tx(121)];
    let block = compact_relay::block::Block {
        header: hdr,
        uncles: vec![],
        commit_transactions: commits.clone(),
        proposal_transactions: vec![],
    };
    let mut relayer = Relayer::new();
    let acts = relayer.process(
        6,
        RelayMessage::GetBlockTransactions { block_hash: hdr.hash, indexes: vec![1] },
        true,
        &vec![],
        Some(&block),
    );
    assert_eq!(acts.len(), 1);
    match &acts[0] {
        RelayAction::Send { message, .. } => match message {
            RelayMessage::BlockTransactions { transactions, .. } => {
                assert_eq!(transactions, &vec![commits[1]]);
            },
            _ => panic!("expected a BlockTransactions"),
        },
        _ => panic!("expected a send"),
    }
    let t = tx(122);
    let pid = proposal_short_id(&t.hash);
    let acts = relayer.process(
        6,
        RelayMessage::GetBlockProposal { block_number: 3, proposal_ids: vec![pid] },
        true,
        &vec![t],
        None,
    );
    assert_eq!(acts.len(), 1);
    match &acts[0] {
        RelayAction::Send { message, .. } => match message {
            RelayMessage::BlockProposal { transactions } => {
                assert_eq!(transactions, &vec![t]);
            },
            _ => panic!("expected a BlockProposal"),
        },
        _ => panic!("expected a send"),
    }
}

#[test]
fn verifier_rejection_stays_local() {
    // the engine hands a reconstructed block to the acceptance path and
    // nothing else: whatever the verifier decides, no reply reaches the
    // peer and the handler has already returned without error
    let hdr = header(0x1111, 5, 914);
    let cb = compact(hdr, 0x2222, vec![(0, tx(1))], vec![], vec![], vec![]);
    let mut relayer = Relayer::new();
    let acts = relayer.handle_compact_block(1, cb, true, &vec![]);
    assert_eq!(acts.len(), 2);
    assert!(matches!(acts[0], RelayAction::Send {
        message: RelayMessage::GetBlockProposal { .. },
        ..
    }));
    assert!(matches!(acts[1], RelayAction::SubmitBlock { .. }));
}
