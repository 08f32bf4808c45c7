//! Compact blocks, full blocks, and their mathematical views.

use vstd::prelude::*;
use crate::types::{Header, ProposalShortId, Transaction};
use crate::short_id::ShortId;

verus! {

/// A full transaction the sender chose to embed in a compact block,
/// together with the position it occupies in the commit-transaction list.
#[derive(Clone, Copy, PartialEq, Eq, Structural, Debug)]
pub struct PrefilledTransaction {
    pub index: usize,
    pub transaction: Transaction,
}

/// A stale but referenced header included in a block, carrying its own
/// proposal short ids.
#[derive(Clone, Debug)]
pub struct UncleBlock {
    pub header: Header,
    pub proposal_transactions: Vec<ProposalShortId>,
}

/// The mathematical view of an uncle.
#[verifier::ext_equal]
pub struct UncleView {
    pub header: Header,
    pub proposal_transactions: Seq<ProposalShortId>,
}

impl View for UncleBlock {
    type V = UncleView;

    open spec fn view(&self) -> UncleView {
        UncleView { header: self.header, proposal_transactions: self.proposal_transactions@ }
    }
}

/// The views of a sequence of uncles, in order.
pub open spec fn uncles_view(s: Seq<UncleBlock>) -> Seq<UncleView> {
    Seq::new(s.len(), |k: int| s[k]@)
}

/// The wire form of a newly mined block: the full header, the sender's
/// short-id salt, short ids for the elided commit transactions, the
/// embedded (prefilled) transactions at their declared positions, the
/// block's proposal short ids, and the uncles.
#[derive(Clone, Debug)]
pub struct CompactBlock {
    pub header: Header,
    pub nonce: u64,
    pub short_ids: Vec<ShortId>,
    pub prefilled_transactions: Vec<PrefilledTransaction>,
    pub uncles: Vec<UncleBlock>,
    pub proposal_transactions: Vec<ProposalShortId>,
}

/// The mathematical view of a compact block.
#[verifier::ext_equal]
pub struct CompactBlockView {
    pub header: Header,
    pub nonce: u64,
    pub short_ids: Seq<ShortId>,
    pub prefilled_transactions: Seq<PrefilledTransaction>,
    pub uncles: Seq<UncleView>,
    pub proposal_transactions: Seq<ProposalShortId>,
}

impl View for CompactBlock {
    type V = CompactBlockView;

    open spec fn view(&self) -> CompactBlockView {
        CompactBlockView {
            header: self.header,
            nonce: self.nonce,
            short_ids: self.short_ids@,
            prefilled_transactions: self.prefilled_transactions@,
            uncles: uncles_view(self.uncles@),
            proposal_transactions: self.proposal_transactions@,
        }
    }
}

/// The prefilled indices are strictly increasing.
pub open spec fn pf_sorted(pf: Seq<PrefilledTransaction>) -> bool {
    forall|a: int, b: int|
        0 <= a < b < pf.len() ==> (#[trigger] pf[a]).index < (#[trigger] pf[b]).index
}

/// An index strictly above its predecessor, at every position.
proof fn lemma_index_chain(pf: Seq<PrefilledTransaction>, a: int, b: int)
    requires
        forall|k: int| 0 < k < pf.len() ==> pf[k - 1].index < (#[trigger] pf[k]).index,
        0 <= a < b < pf.len(),
    ensures
        pf[a].index < pf[b].index,
    decreases b - a,
{
    if a + 1 < b {
        lemma_index_chain(pf, a, b - 1);
    }
    assert(pf[b - 1].index < pf[b].index);
}

/// Checking adjacent pairs suffices for strictly increasing indices.
pub proof fn lemma_adjacent_sorted(pf: Seq<PrefilledTransaction>)
    requires
        forall|k: int| 0 < k < pf.len() ==> pf[k - 1].index < (#[trigger] pf[k]).index,
    ensures
        pf_sorted(pf),
{
    assert forall|a: int, b: int| 0 <= a < b < pf.len() implies (#[trigger] pf[a]).index < (
    #[trigger] pf[b]).index by {
        lemma_index_chain(pf, a, b);
    }
}

/// Every prefilled index lies below `total`.
pub open spec fn pf_bounded(pf: Seq<PrefilledTransaction>, total: int) -> bool {
    forall|k: int| 0 <= k < pf.len() ==> (#[trigger] pf[k]).index < total
}

impl CompactBlockView {
    /// The length of the commit-transaction list this compact block stands
    /// for: every position is either prefilled or matched by a short id.
    pub open spec fn total(self) -> int {
        self.prefilled_transactions.len() + self.short_ids.len() as int
    }

    /// A compact block is well formed when its prefilled indices are
    /// strictly increasing and bounded by the commit-transaction count,
    /// which itself fits the machine. Together with gap filling this
    /// makes the prefilled entries and the short ids cover every commit
    /// position exactly once.
    pub open spec fn well_formed(self) -> bool {
        &&& self.total() <= usize::MAX
        &&& pf_bounded(self.prefilled_transactions, self.total())
        &&& pf_sorted(self.prefilled_transactions)
    }
}

impl CompactBlock {
    /// Decides well-formedness of this compact block.
    pub fn is_well_formed(&self) -> (r: bool)
        ensures
            r == self@.well_formed(),
    {
        let pref_len = self.prefilled_transactions.len();
        let sid_len = self.short_ids.len();
        if sid_len > usize::MAX - pref_len {
            return false;
        }
        let total = pref_len + sid_len;
        let mut k: usize = 0;
        let mut ok = true;
        while k < pref_len
            invariant
                k <= pref_len,
                pref_len == self@.prefilled_transactions.len(),
                total == self@.total(),
                ok == (forall|j: int|
                    0 <= j < k ==> (#[trigger] self@.prefilled_transactions[j]).index
                        < self@.total() && (0 < j ==> self@.prefilled_transactions[j - 1].index
                        < self@.prefilled_transactions[j].index)),
            decreases pref_len - k,
        {
            let pt_index = self.prefilled_transactions[k].index;
            if pt_index >= total {
                ok = false;
            }
            if k > 0 && self.prefilled_transactions[k - 1].index >= pt_index {
                ok = false;
            }
            k += 1;
        }
        proof {
            let pf = self@.prefilled_transactions;
            if ok {
                assert(pf_bounded(pf, self@.total()));
                lemma_adjacent_sorted(pf);
            } else {
                if self@.well_formed() {
                    assert forall|j: int|
                        0 <= j < pf.len() implies (#[trigger] pf[j]).index < self@.total() && (0 < j
                        ==> pf[j - 1].index < pf[j].index) by {
                        if 0 < j {
                            assert(pf[j - 1].index < pf[j].index);
                        }
                    }
                    assert(false);
                }
            }
        }
        ok
    }
}

/// A fully reconstructed block: the header, the uncles, the resolved
/// commit transactions in position order, and the proposal short ids.
#[derive(Clone, Debug)]
pub struct Block {
    pub header: Header,
    pub uncles: Vec<UncleBlock>,
    pub commit_transactions: Vec<Transaction>,
    pub proposal_transactions: Vec<ProposalShortId>,
}

/// The mathematical view of a block.
#[verifier::ext_equal]
pub struct BlockView {
    pub header: Header,
    pub uncles: Seq<UncleView>,
    pub commit_transactions: Seq<Transaction>,
    pub proposal_transactions: Seq<ProposalShortId>,
}

impl View for Block {
    type V = BlockView;

    open spec fn view(&self) -> BlockView {
        BlockView {
            header: self.header,
            uncles: uncles_view(self.uncles@),
            commit_transactions: self.commit_transactions@,
            proposal_transactions: self.proposal_transactions@,
        }
    }
}

/// Copies a list of proposal short ids.
pub fn copy_proposal_ids(v: &Vec<ProposalShortId>) -> (r: Vec<ProposalShortId>)
    ensures
        r@ == v@,
{
    let mut out: Vec<ProposalShortId> = Vec::new();
    let mut i: usize = 0;
    while i < v.len()
        invariant
            i <= v@.len(),
            out@ == v@.take(i as int),
        decreases v@.len() - i,
    {
        out.push(v[i]);
        assert(v@.take(i + 1 as int) == v@.take(i as int).push(v@[i as int]));
        i += 1;
    }
    assert(v@.take(v@.len() as int) == v@);
    out
}

/// Copies a list of uncles.
pub fn copy_uncles(v: &Vec<UncleBlock>) -> (r: Vec<UncleBlock>)
    ensures
        uncles_view(r@) == uncles_view(v@),
{
    let mut out: Vec<UncleBlock> = Vec::new();
    let mut i: usize = 0;
    while i < v.len()
        invariant
            i <= v@.len(),
            out@.len() == i as int,
            uncles_view(out@) == uncles_view(v@.take(i as int)),
        decreases v@.len() - i,
    {
        let u = UncleBlock {
            header: v[i].header,
            proposal_transactions: copy_proposal_ids(&v[i].proposal_transactions),
        };
        assert(u@ == v@[i as int]@);
        let ghost gu = u@;
        let ghost prev = out@;
        out.push(u);
        proof {
            assert forall|k: int| 0 <= k < i as int + 1 implies uncles_view(out@)[k]
                == uncles_view(v@.take(i as int + 1))[k] by {
                if k < i as int {
                    assert(out@[k] == prev[k]);
                    assert(uncles_view(prev)[k] == uncles_view(v@.take(i as int))[k]);
                    assert(v@.take(i as int)[k] == v@[k]);
                    assert(v@.take(i as int + 1)[k] == v@[k]);
                } else {
                    assert(out@[k]@ == gu);
                    assert(v@.take(i as int + 1)[k] == v@[k]);
                }
            }
            assert(uncles_view(out@) =~= uncles_view(v@.take(i as int + 1)));
        }
        i += 1;
    }
    assert(uncles_view(v@.take(v@.len() as int)) =~= uncles_view(v@));
    out
}

} // verus!
