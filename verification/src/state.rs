//! The shared relay state: recently seen blocks and transactions, compact
//! blocks awaiting missing transactions, in-flight proposal requests, and
//! pending proposal replies.

use vstd::prelude::*;
use crate::types::{H256, PeerIndex, ProposalShortId, Transaction};
use crate::block::{CompactBlock, CompactBlockView};

verus! {

/// Whether `x` occurs in `s`.
pub open spec fn seq_has_h256(s: Seq<H256>, x: H256) -> bool {
    exists|i: int| 0 <= i < s.len() && (#[trigger] s[i]) == x
}

/// A set of block or transaction hashes, for de-duplication.
pub struct HashSet256 {
    items: Vec<H256>,
}

impl HashSet256 {
    /// The set this container stands for.
    pub closed spec fn view(&self) -> Set<H256> {
        Set::new(|x: H256| seq_has_h256(self.items@, x))
    }

    /// An empty set.
    pub fn new() -> (r: HashSet256)
        ensures
            r@ == Set::<H256>::empty(),
    {
        let r = HashSet256 { items: Vec::new() };
        proof {
            assert(r@ =~= Set::<H256>::empty());
        }
        r
    }

    /// Whether `h` is in the set.
    pub fn contains(&self, h: &H256) -> (r: bool)
        ensures
            r == self@.contains(*h),
    {
        let mut i: usize = 0;
        while i < self.items.len()
            invariant
                i <= self.items@.len(),
                forall|j: int| 0 <= j < i ==> (#[trigger] self.items@[j]) != *h,
            decreases self.items@.len() - i,
        {
            if self.items[i] == *h {
                return true;
            }
            i += 1;
        }
        proof {
            if seq_has_h256(self.items@, *h) {
                let w = choose|j: int| 0 <= j < self.items@.len() && (#[trigger] self.items@[j])
                    == *h;
                assert(false);
            }
        }
        false
    }

    /// Adds `h`; reports whether it was new.
    pub fn insert(&mut self, h: H256) -> (r: bool)
        ensures
            final(self)@ == old(self)@.insert(h),
            r == !old(self)@.contains(h),
    {
        let ghost pre = self@;
        if self.contains(&h) {
            proof {
                assert(self@ =~= pre.insert(h));
            }
            false
        } else {
            let ghost prev = self.items@;
            self.items.push(h);
            proof {
                assert forall|x: H256| seq_has_h256(self.items@, x) implies (seq_has_h256(prev, x)
                    || x == h) by {
                    let w = choose|j: int| 0 <= j < self.items@.len() && (#[trigger] self.items@[j])
                        == x;
                    if w < prev.len() {
                        assert(prev[w] == x);
                    }
                }
                assert forall|x: H256| seq_has_h256(prev, x) implies seq_has_h256(
                    self.items@,
                    x,
                ) by {
                    let w = choose|j: int| 0 <= j < prev.len() && (#[trigger] prev[j]) == x;
                    assert(self.items@[w] == x);
                }
                assert(self.items@[prev.len() as int] == h);
                assert(self@ =~= pre.insert(h));
            }
            true
        }
    }
}

/// Whether `x` occurs in `s`.
pub open spec fn seq_has_pid(s: Seq<ProposalShortId>, x: ProposalShortId) -> bool {
    exists|i: int| 0 <= i < s.len() && (#[trigger] s[i]) == x
}

/// A set of proposal short ids, deduplicating requests across peers and
/// blocks.
pub struct ProposalIdSet {
    items: Vec<ProposalShortId>,
}

impl ProposalIdSet {
    /// The set this container stands for.
    pub closed spec fn view(&self) -> Set<ProposalShortId> {
        Set::new(|x: ProposalShortId| seq_has_pid(self.items@, x))
    }

    /// An empty set.
    pub fn new() -> (r: ProposalIdSet)
        ensures
            r@ == Set::<ProposalShortId>::empty(),
    {
        let r = ProposalIdSet { items: Vec::new() };
        proof {
            assert(r@ =~= Set::<ProposalShortId>::empty());
        }
        r
    }

    /// Whether `id` is in the set.
    pub fn contains(&self, id: &ProposalShortId) -> (r: bool)
        ensures
            r == self@.contains(*id),
    {
        let mut i: usize = 0;
        while i < self.items.len()
            invariant
                i <= self.items@.len(),
                forall|j: int| 0 <= j < i ==> (#[trigger] self.items@[j]) != *id,
            decreases self.items@.len() - i,
        {
            if self.items[i] == *id {
                return true;
            }
            i += 1;
        }
        proof {
            if seq_has_pid(self.items@, *id) {
                let w = choose|j: int| 0 <= j < self.items@.len() && (#[trigger] self.items@[j])
                    == *id;
                assert(false);
            }
        }
        false
    }

    /// Adds `id`; reports whether it was new.
    pub fn insert(&mut self, id: ProposalShortId) -> (r: bool)
        ensures
            final(self)@ == old(self)@.insert(id),
            r == !old(self)@.contains(id),
    {
        let ghost pre = self@;
        if self.contains(&id) {
            proof {
                assert(self@ =~= pre.insert(id));
            }
            false
        } else {
            let ghost prev = self.items@;
            self.items.push(id);
            proof {
                assert forall|x: ProposalShortId| seq_has_pid(self.items@, x) implies (seq_has_pid(
                    prev,
                    x,
                ) || x == id) by {
                    let w = choose|j: int| 0 <= j < self.items@.len() && (#[trigger] self.items@[j])
                        == x;
                    if w < prev.len() {
                        assert(prev[w] == x);
                    }
                }
                assert forall|x: ProposalShortId| seq_has_pid(prev, x) implies seq_has_pid(
                    self.items@,
                    x,
                ) by {
                    let w = choose|j: int| 0 <= j < prev.len() && (#[trigger] prev[j]) == x;
                    assert(self.items@[w] == x);
                }
                assert(self.items@[prev.len() as int] == id);
                assert(self@ =~= pre.insert(id));
            }
            true
        }
    }
}

/// Whether some entry of `s` carries the key `h`.
pub open spec fn cb_keyed(s: Seq<(H256, CompactBlock)>, h: H256) -> bool {
    exists|k: int| 0 <= k < s.len() && (#[trigger] s[k]).0 == h
}

/// The position of the entry carrying `h`.
pub open spec fn cb_key_at(s: Seq<(H256, CompactBlock)>, h: H256) -> int {
    choose|k: int| 0 <= k < s.len() && (#[trigger] s[k]).0 == h
}

/// The map a sequence of entries stands for, valued by view.
pub open spec fn cb_entries_map(s: Seq<(H256, CompactBlock)>) -> Map<H256, CompactBlockView> {
    Map::new(|h: H256| cb_keyed(s, h), |h: H256| s[cb_key_at(s, h)].1@)
}

/// Keys occur at most once.
pub open spec fn cb_entries_uniq(s: Seq<(H256, CompactBlock)>) -> bool {
    forall|a: int, b: int| 0 <= a < b < s.len() ==> (#[trigger] s[a]).0 != (#[trigger] s[b]).0
}

/// Removing the entry at `k` by a swap with the last entry removes exactly
/// its key from the map the entries stand for.
proof fn lemma_cb_swap_remove_view(pre: Seq<(H256, CompactBlock)>, k: int)
    requires
        cb_entries_uniq(pre),
        0 <= k < pre.len(),
    ensures
        cb_entries_uniq(pre.update(k, pre.last()).drop_last()),
        cb_entries_map(pre.update(k, pre.last()).drop_last()) == cb_entries_map(pre).remove(
            pre[k].0,
        ),
{
    let post = pre.update(k, pre.last()).drop_last();
    let sid = pre[k].0;
    let n = pre.len() as int;
    assert(forall|j: int| 0 <= j < n - 1 ==> post[j] == (if j == k {
        pre[n - 1]
    } else {
        pre[j]
    }));
    assert forall|a: int, b: int| 0 <= a < b < post.len() implies (#[trigger] post[a]).0
        != (#[trigger] post[b]).0 by {
        let ja: int = if a == k { n - 1 } else { a };
        let jb: int = if b == k { n - 1 } else { b };
        assert(post[a] == pre[ja]);
        assert(post[b] == pre[jb]);
        assert(ja != jb);
    }
    assert forall|s: H256| cb_keyed(post, s) implies cb_keyed(pre, s) && s != sid by {
        let j = choose|j: int| 0 <= j < post.len() && (#[trigger] post[j]).0 == s;
        let jp: int = if j == k { n - 1 } else { j };
        assert(pre[jp].0 == s);
        if s == sid {
            assert(pre[jp].0 == pre[k].0);
            assert(jp == k);
            assert(false);
        }
    }
    assert forall|s: H256| cb_keyed(pre, s) && s != sid implies cb_keyed(post, s) by {
        let w = choose|j: int| 0 <= j < pre.len() && (#[trigger] pre[j]).0 == s;
        assert(w != k);
        if w < n - 1 {
            assert(post[w].0 == s);
        } else {
            assert(k < n - 1);
            assert(post[k].0 == s);
        }
    }
    assert forall|s: H256| #[trigger] cb_keyed(post, s) implies cb_entries_map(post)[s]
        == cb_entries_map(pre)[s] by {
        let jp = cb_key_at(post, s);
        assert(0 <= jp < post.len() && post[jp].0 == s);
        let jq: int = if jp == k { n - 1 } else { jp };
        assert(post[jp] == pre[jq]);
        let w = cb_key_at(pre, s);
        assert(0 <= w < pre.len() && pre[w].0 == s);
        assert(w == jq);
    }
    assert(cb_entries_map(post) =~= cb_entries_map(pre).remove(sid));
}

/// Appending an entry with a fresh key binds exactly that key.
proof fn lemma_cb_push_view(pre: Seq<(H256, CompactBlock)>, h: H256, cb: CompactBlock)
    requires
        cb_entries_uniq(pre),
        !cb_keyed(pre, h),
    ensures
        cb_entries_uniq(pre.push((h, cb))),
        cb_entries_map(pre.push((h, cb))) == cb_entries_map(pre).insert(h, cb@),
{
    let post = pre.push((h, cb));
    let n = pre.len() as int;
    assert(forall|j: int| 0 <= j < n ==> post[j] == pre[j]);
    assert(post[n] == (h, cb));
    assert forall|a: int, b: int| 0 <= a < b < post.len() implies (#[trigger] post[a]).0
        != (#[trigger] post[b]).0 by {
        if b == n {
            assert(post[a].0 == pre[a].0);
            if pre[a].0 == h {
                assert(cb_keyed(pre, h));
            }
        }
    }
    assert forall|s: H256| cb_keyed(pre, s) implies cb_keyed(post, s) by {
        let w = choose|j: int| 0 <= j < pre.len() && (#[trigger] pre[j]).0 == s;
        assert(post[w].0 == s);
    }
    assert(post[n].0 == h);
    assert(cb_keyed(post, h));
    assert forall|s: H256| #[trigger] cb_keyed(post, s) implies (s == h || cb_keyed(pre, s)) by {
        let j = choose|j: int| 0 <= j < post.len() && (#[trigger] post[j]).0 == s;
        if j < n {
            assert(pre[j].0 == s);
        }
    }
    assert forall|s: H256| #[trigger] cb_keyed(post, s) implies cb_entries_map(post)[s] == (if s
        == h {
        cb@
    } else {
        cb_entries_map(pre)[s]
    }) by {
        let jp = cb_key_at(post, s);
        assert(0 <= jp < post.len() && post[jp].0 == s);
        if s == h {
            if jp < n {
                assert(pre[jp].0 == h);
                assert(cb_keyed(pre, h));
                assert(false);
            }
            assert(post[jp].1 == cb);
        } else {
            assert(jp < n);
            let w = cb_key_at(pre, s);
            assert(0 <= w < pre.len() && pre[w].0 == s);
            assert(w == jp);
        }
    }
    assert(cb_entries_map(post) =~= cb_entries_map(pre).insert(h, cb@));
}

/// Compact blocks whose reconstruction waits on a `BlockTransactions`
/// reply, keyed by header hash.
pub struct PendingCompactMap {
    entries: Vec<(H256, CompactBlock)>,
}

impl PendingCompactMap {
    /// Keys occur at most once among the entries.
    pub closed spec fn wf(&self) -> bool {
        cb_entries_uniq(self.entries@)
    }

    /// The map this container stands for.
    pub closed spec fn view(&self) -> Map<H256, CompactBlockView> {
        cb_entries_map(self.entries@)
    }

    /// An empty map.
    pub fn new() -> (r: PendingCompactMap)
        ensures
            r.wf(),
            r@ == Map::<H256, CompactBlockView>::empty(),
    {
        let r = PendingCompactMap { entries: Vec::new() };
        proof {
            assert(r@ =~= Map::<H256, CompactBlockView>::empty());
        }
        r
    }

    /// The position of the entry carrying `h`, if one exists.
    fn position_of(&self, h: &H256) -> (r: Option<usize>)
        requires
            self.wf(),
        ensures
            match r {
                Some(k) => k < self.entries@.len() && self.entries@[k as int].0 == *h
                    && self@.contains_key(*h) && self@[*h] == self.entries@[k as int].1@,
                None => !self@.contains_key(*h),
            },
    {
        let mut k: usize = 0;
        while k < self.entries.len()
            invariant
                self.wf(),
                k <= self.entries@.len(),
                forall|j: int| 0 <= j < k ==> (#[trigger] self.entries@[j]).0 != *h,
            decreases self.entries@.len() - k,
        {
            if self.entries[k].0 == *h {
                proof {
                    assert(cb_keyed(self.entries@, *h));
                    let w = cb_key_at(self.entries@, *h);
                    assert(0 <= w < self.entries@.len() && self.entries@[w].0 == *h);
                    if w < k as int {
                        assert(self.entries@[w].0 != *h);
                    } else if w > k as int {
                        assert((self.entries@[k as int]).0 != (self.entries@[w]).0);
                    }
                    assert(w == k as int);
                }
                return Some(k);
            }
            k += 1;
        }
        proof {
            if cb_keyed(self.entries@, *h) {
                let w = choose|j: int| 0 <= j < self.entries@.len()
                    && (#[trigger] self.entries@[j]).0 == *h;
                assert(false);
            }
        }
        None
    }

    /// Whether a compact block is pending under `h`.
    pub fn contains(&self, h: &H256) -> (r: bool)
        requires
            self.wf(),
        ensures
            r == self@.contains_key(*h),
    {
        self.position_of(h).is_some()
    }

    /// Files `cb` under `h`, replacing any earlier entry (last writer
    /// wins, so concurrent arrivals of one hash stay idempotent).
    pub fn insert(&mut self, h: H256, cb: CompactBlock)
        requires
            old(self).wf(),
        ensures
            final(self).wf(),
            final(self)@ == old(self)@.insert(h, cb@),
    {
        let ghost pre = self@;
        match self.position_of(&h) {
            Some(k) => {
                proof {
                    lemma_cb_swap_remove_view(self.entries@, k as int);
                }
                self.entries.swap_remove(k);
                proof {
                    lemma_cb_push_view(self.entries@, h, cb);
                }
                self.entries.push((h, cb));
                proof {
                    assert(self@ =~= pre.insert(h, cb@));
                }
            },
            None => {
                proof {
                    lemma_cb_push_view(self.entries@, h, cb);
                }
                self.entries.push((h, cb));
                proof {
                    assert(self@ =~= pre.insert(h, cb@));
                }
            },
        }
    }

    /// Takes the compact block filed under `h`, if any.
    pub fn remove(&mut self, h: &H256) -> (r: Option<CompactBlock>)
        requires
            old(self).wf(),
        ensures
            final(self).wf(),
            final(self)@ == old(self)@.remove(*h),
            match r {
                Some(cb) => old(self)@.contains_key(*h) && cb@ == old(self)@[*h],
                None => !old(self)@.contains_key(*h),
            },
    {
        let ghost pre = self@;
        match self.position_of(h) {
            Some(k) => {
                proof {
                    lemma_cb_swap_remove_view(self.entries@, k as int);
                }
                let e = self.entries.swap_remove(k);
                Some(e.1)
            },
            None => {
                proof {
                    assert(self@ =~= pre.remove(*h));
                }
                None
            },
        }
    }
}

/// The views of pending-proposal entries, in order.
pub open spec fn ppr_view(s: Seq<(ProposalShortId, Vec<PeerIndex>)>) -> Seq<
    (ProposalShortId, Seq<PeerIndex>),
> {
    Seq::new(s.len(), |k: int| (s[k].0, s[k].1@))
}

/// Ids occur at most once, and no peer twice within one entry.
pub open spec fn ppr_wf(v: Seq<(ProposalShortId, Seq<PeerIndex>)>) -> bool {
    &&& forall|a: int, b: int|
        0 <= a < b < v.len() ==> (#[trigger] v[a]).0 != (#[trigger] v[b]).0
    &&& forall|k: int, a: int, b: int|
        0 <= k < v.len() && 0 <= a < b < v[k].1.len() ==> (#[trigger] v[k].1[a])
            != (#[trigger] v[k].1[b])
}

/// Whether an entry carries `id`.
pub open spec fn ppr_has(v: Seq<(ProposalShortId, Seq<PeerIndex>)>, id: ProposalShortId) -> bool {
    exists|k: int| 0 <= k < v.len() && (#[trigger] v[k]).0 == id
}

/// The position of the entry carrying `id`.
pub open spec fn ppr_at(v: Seq<(ProposalShortId, Seq<PeerIndex>)>, id: ProposalShortId) -> int {
    choose|k: int| 0 <= k < v.len() && (#[trigger] v[k]).0 == id
}

/// The peers recorded as asking for `id`.
pub open spec fn ppr_peers(v: Seq<(ProposalShortId, Seq<PeerIndex>)>, id: ProposalShortId) -> Seq<
    PeerIndex,
> {
    v[ppr_at(v, id)].1
}

/// How recording `(id, peer)` changes the entries: an existing entry for
/// `id` gains `peer` unless it already lists it; otherwise a fresh entry
/// for `id` listing `peer` alone is appended. Nothing else changes.
pub open spec fn ppr_record_post(
    pre: Seq<(ProposalShortId, Seq<PeerIndex>)>,
    post: Seq<(ProposalShortId, Seq<PeerIndex>)>,
    id: ProposalShortId,
    peer: PeerIndex,
) -> bool {
    if ppr_has(pre, id) {
        let k0 = ppr_at(pre, id);
        &&& post.len() == pre.len()
        &&& forall|k: int| 0 <= k < pre.len() && k != k0 ==> (#[trigger] post[k]) == pre[k]
        &&& post[k0].0 == id
        &&& post[k0].1 == (if pre[k0].1.contains(peer) {
            pre[k0].1
        } else {
            pre[k0].1.push(peer)
        })
    } else {
        post == pre.push((id, seq![peer]))
    }
}

/// The entries after recording `(id, peer)`, as a function.
pub open spec fn ppr_record_fn(
    pre: Seq<(ProposalShortId, Seq<PeerIndex>)>,
    id: ProposalShortId,
    peer: PeerIndex,
) -> Seq<(ProposalShortId, Seq<PeerIndex>)> {
    if ppr_has(pre, id) {
        let k0 = ppr_at(pre, id);
        pre.update(
            k0,
            (
                pre[k0].0,
                if pre[k0].1.contains(peer) {
                    pre[k0].1
                } else {
                    pre[k0].1.push(peer)
                },
            ),
        )
    } else {
        pre.push((id, seq![peer]))
    }
}

/// The relational description of recording pins down its functional form.
pub proof fn lemma_record_fn(
    pre: Seq<(ProposalShortId, Seq<PeerIndex>)>,
    post: Seq<(ProposalShortId, Seq<PeerIndex>)>,
    id: ProposalShortId,
    peer: PeerIndex,
)
    requires
        ppr_record_post(pre, post, id, peer),
    ensures
        post == ppr_record_fn(pre, id, peer),
{
    if ppr_has(pre, id) {
        let k0 = ppr_at(pre, id);
        assert(0 <= k0 < pre.len() && pre[k0].0 == id);
        assert(post =~= ppr_record_fn(pre, id, peer));
    } else {
        assert(post =~= ppr_record_fn(pre, id, peer));
    }
}

/// For each proposal id asked about and not yet served, the peers asking;
/// drained by the batch timer.
pub struct PendingProposalsMap {
    entries: Vec<(ProposalShortId, Vec<PeerIndex>)>,
}

impl PendingProposalsMap {
    /// The entries this container stands for, in insertion order.
    pub closed spec fn view(&self) -> Seq<(ProposalShortId, Seq<PeerIndex>)> {
        ppr_view(self.entries@)
    }

    /// Ids occur at most once, and no peer twice within one entry.
    pub open spec fn wf(&self) -> bool {
        ppr_wf(self@)
    }

    /// An empty map.
    pub fn new() -> (r: PendingProposalsMap)
        ensures
            r.wf(),
            r@ == Seq::<(ProposalShortId, Seq<PeerIndex>)>::empty(),
    {
        let r = PendingProposalsMap { entries: Vec::new() };
        proof {
            assert(r@ =~= Seq::<(ProposalShortId, Seq<PeerIndex>)>::empty());
        }
        r
    }

    /// The number of entries.
    pub fn len(&self) -> (r: usize)
        ensures
            r == self@.len(),
    {
        self.entries.len()
    }

    /// The id of entry `k`.
    pub fn id_at(&self, k: usize) -> (r: ProposalShortId)
        requires
            k < self@.len(),
        ensures
            r == self@[k as int].0,
    {
        self.entries[k].0
    }

    /// How many peers entry `k` lists.
    pub fn peers_len(&self, k: usize) -> (r: usize)
        requires
            k < self@.len(),
        ensures
            r == self@[k as int].1.len(),
    {
        self.entries[k].1.len()
    }

    /// The `j`-th peer of entry `k`.
    pub fn peer_at(&self, k: usize, j: usize) -> (r: PeerIndex)
        requires
            k < self@.len(),
            j < self@[k as int].1.len(),
        ensures
            r == self@[k as int].1[j as int],
    {
        self.entries[k].1[j]
    }

    /// Forgets every entry.
    pub fn clear(&mut self)
        ensures
            final(self).wf(),
            final(self)@ == Seq::<(ProposalShortId, Seq<PeerIndex>)>::empty(),
    {
        self.entries.clear();
        proof {
            assert(self@ =~= Seq::<(ProposalShortId, Seq<PeerIndex>)>::empty());
        }
    }

    /// Records that `peer` asks for `id`.
    pub fn record(&mut self, id: ProposalShortId, peer: PeerIndex)
        requires
            old(self).wf(),
        ensures
            final(self).wf(),
            ppr_record_post(old(self)@, final(self)@, id, peer),
    {
        let ghost pre = self@;
        let n = self.entries.len();
        let mut k: usize = 0;
        while k < n
            invariant
                self.wf(),
                pre == old(self)@,
                self@ == pre,
                n == self.entries@.len(),
                k <= n,
                forall|j: int| 0 <= j < k ==> (#[trigger] pre[j]).0 != id,
            decreases n - k,
        {
            if self.entries[k].0 == id {
                proof {
                    assert(pre[k as int].0 == id);
                    assert(ppr_has(pre, id));
                    let w = ppr_at(pre, id);
                    assert(0 <= w < pre.len() && pre[w].0 == id);
                    if w < k as int {
                        assert(pre[w].0 != id);
                    } else if w > k as int {
                        assert((pre[k as int]).0 != (pre[w]).0);
                    }
                    assert(w == k as int);
                }
                // does the entry already list the peer?
                let m = self.entries[k].1.len();
                let mut j: usize = 0;
                let mut seen = false;
                while j < m
                    invariant
                        self.wf(),
                        pre == old(self)@,
                        self@ == pre,
                        k < pre.len(),
                        pre[k as int].0 == id,
                        ppr_at(pre, id) == k as int,
                        ppr_has(pre, id),
                        m == pre[k as int].1.len(),
                        j <= m,
                        seen == exists|q: int|
                            0 <= q < j && (#[trigger] pre[k as int].1[q]) == peer,
                    decreases m - j,
                {
                    if self.entries[k].1[j] == peer {
                        seen = true;
                    }
                    j += 1;
                }
                proof {
                    if seen {
                        let q = choose|q: int|
                            0 <= q < m && (#[trigger] pre[k as int].1[q]) == peer;
                        assert(pre[k as int].1.contains(peer));
                    } else if pre[k as int].1.contains(peer) {
                        let q = choose|q: int|
                            0 <= q < pre[k as int].1.len() && pre[k as int].1[q] == peer;
                        assert(pre[k as int].1[q] == peer);
                        assert(false);
                    }
                }
                if seen {
                    return ;
                }
                let ghost prev_entries = self.entries@;
                let mut e = self.entries.remove(k);
                e.1.push(peer);
                self.entries.insert(k, e);
                proof {
                    assert(self.entries@ =~= prev_entries.update(
                        k as int,
                        (pre[k as int].0, e.1),
                    ));
                    assert forall|x: int| 0 <= x < pre.len() && x != k as int implies (
                    #[trigger] self@[x]) == pre[x] by {
                        assert(self.entries@[x] == prev_entries[x]);
                    }
                    assert(self@[k as int].0 == id);
                    assert(self@[k as int].1 == pre[k as int].1.push(peer));
                    assert(self@.len() == pre.len());
                    // well-formedness: ids unchanged, the one peer list grew
                    // by a peer it did not list
                    assert forall|a: int, b: int| 0 <= a < b < self@.len() implies (
                    #[trigger] self@[a]).0 != (#[trigger] self@[b]).0 by {
                        assert(self@[a].0 == pre[a].0);
                        assert(self@[b].0 == pre[b].0);
                    }
                    assert forall|x: int, a: int, b: int|
                        0 <= x < self@.len() && 0 <= a < b < self@[x].1.len() implies (
                    #[trigger] self@[x].1[a]) != (#[trigger] self@[x].1[b]) by {
                        if x == k as int {
                            let old_list = pre[k as int].1;
                            assert(self@[x].1 == old_list.push(peer));
                            if b < old_list.len() {
                                assert(pre[x].1[a] != pre[x].1[b]);
                            } else {
                                assert(self@[x].1[b] == peer);
                                assert(self@[x].1[a] == old_list[a]);
                                if old_list[a] == peer {
                                    assert(old_list.contains(peer));
                                    assert(false);
                                }
                            }
                        } else {
                            assert(self@[x] == pre[x]);
                            assert(pre[x].1[a] != pre[x].1[b]);
                        }
                    }
                }
                return ;
            }
            k += 1;
        }
        proof {
            if ppr_has(pre, id) {
                let w = choose|j: int| 0 <= j < pre.len() && (#[trigger] pre[j]).0 == id;
                assert(false);
            }
        }
        let mut peers: Vec<PeerIndex> = Vec::new();
        peers.push(peer);
        let ghost prev_entries = self.entries@;
        self.entries.push((id, peers));
        proof {
            assert(peers@ =~= seq![peer]);
            assert(self@ =~= pre.push((id, seq![peer])));
            assert forall|a: int, b: int| 0 <= a < b < self@.len() implies (#[trigger] self@[a]).0
                != (#[trigger] self@[b]).0 by {
                if b == self@.len() - 1 {
                    if pre[a].0 == id {
                        assert(ppr_has(pre, id));
                    }
                } else {
                    assert(self@[a] == pre[a]);
                    assert(self@[b] == pre[b]);
                }
            }
        }
    }
}

/// The views of per-peer reply batches, in order.
pub open spec fn pb_view(s: Seq<(PeerIndex, Vec<Transaction>)>) -> Seq<(PeerIndex, Seq<Transaction>)> {
    Seq::new(s.len(), |k: int| (s[k].0, s[k].1@))
}

/// Whether a batch exists for `peer`.
pub open spec fn pb_has(v: Seq<(PeerIndex, Seq<Transaction>)>, peer: PeerIndex) -> bool {
    exists|k: int| 0 <= k < v.len() && (#[trigger] v[k]).0 == peer
}

/// The position of the batch for `peer`.
pub open spec fn pb_at(v: Seq<(PeerIndex, Seq<Transaction>)>, peer: PeerIndex) -> int {
    choose|k: int| 0 <= k < v.len() && (#[trigger] v[k]).0 == peer
}

/// The batch gathered so far for `peer`: its entry's transactions, or
/// nothing when no entry exists yet.
pub open spec fn pb_batch(v: Seq<(PeerIndex, Seq<Transaction>)>, peer: PeerIndex) -> Seq<
    Transaction,
> {
    if pb_has(v, peer) {
        v[pb_at(v, peer)].1
    } else {
        Seq::empty()
    }
}

/// Peers occur at most once, and no batch is empty.
pub open spec fn pb_wf(v: Seq<(PeerIndex, Seq<Transaction>)>) -> bool {
    &&& forall|a: int, b: int|
        0 <= a < b < v.len() ==> (#[trigger] v[a]).0 != (#[trigger] v[b]).0
    &&& forall|k: int| 0 <= k < v.len() ==> (#[trigger] v[k]).1.len() > 0
}

/// Appending to a batch: only the peer's own batch grows, by the one
/// transaction; a peer without a batch gains one.
pub open spec fn pb_append_post(
    pre: Seq<(PeerIndex, Seq<Transaction>)>,
    post: Seq<(PeerIndex, Seq<Transaction>)>,
    peer: PeerIndex,
    tx: Transaction,
) -> bool {
    &&& pb_batch(post, peer) == pb_batch(pre, peer).push(tx)
    &&& forall|p: PeerIndex| p != peer ==> #[trigger] pb_batch(post, p) == pb_batch(pre, p)
    &&& forall|p: PeerIndex| #[trigger] pb_has(post, p) <==> (pb_has(pre, p) || p == peer)
}

/// The outbound reply batches the timer accumulates, one per peer.
pub struct PeerBatches {
    entries: Vec<(PeerIndex, Vec<Transaction>)>,
}

impl PeerBatches {
    /// The batches this container stands for, in first-appearance order.
    pub closed spec fn view(&self) -> Seq<(PeerIndex, Seq<Transaction>)> {
        pb_view(self.entries@)
    }

    /// Peers occur at most once, and no batch is empty.
    pub open spec fn wf(&self) -> bool {
        pb_wf(self@)
    }

    /// No batches yet.
    pub fn new() -> (r: PeerBatches)
        ensures
            r.wf(),
            r@ == Seq::<(PeerIndex, Seq<Transaction>)>::empty(),
            forall|p: PeerIndex| #[trigger] pb_batch(r@, p) == Seq::<Transaction>::empty(),
    {
        let r = PeerBatches { entries: Vec::new() };
        proof {
            assert(r@ =~= Seq::<(PeerIndex, Seq<Transaction>)>::empty());
            assert forall|p: PeerIndex| #[trigger] pb_batch(r@, p)
                == Seq::<Transaction>::empty() by {
                if pb_has(r@, p) {
                    let w = choose|k: int| 0 <= k < r@.len() && (#[trigger] r@[k]).0 == p;
                    assert(false);
                }
            }
        }
        r
    }

    /// Appends `tx` to the batch for `peer`, starting one if needed.
    pub fn append(&mut self, peer: PeerIndex, tx: Transaction)
        requires
            old(self).wf(),
        ensures
            final(self).wf(),
            pb_append_post(old(self)@, final(self)@, peer, tx),
    {
        let ghost pre = self@;
        let n = self.entries.len();
        let mut k: usize = 0;
        while k < n
            invariant
                self.wf(),
                pre == old(self)@,
                self@ == pre,
                n == self.entries@.len(),
                k <= n,
                forall|j: int| 0 <= j < k ==> (#[trigger] pre[j]).0 != peer,
            decreases n - k,
        {
            if self.entries[k].0 == peer {
                proof {
                    assert(pre[k as int].0 == peer);
                    assert(pb_has(pre, peer));
                    let w = pb_at(pre, peer);
                    assert(0 <= w < pre.len() && pre[w].0 == peer);
                    if w < k as int {
                        assert(pre[w].0 != peer);
                    } else if w > k as int {
                        assert((pre[k as int]).0 != (pre[w]).0);
                    }
                    assert(w == k as int);
                }
                let ghost prev_entries = self.entries@;
                let mut e = self.entries.remove(k);
                e.1.push(tx);
                self.entries.insert(k, e);
                proof {
                    assert(self.entries@ =~= prev_entries.update(
                        k as int,
                        (pre[k as int].0, e.1),
                    ));
                    assert forall|x: int| 0 <= x < pre.len() && x != k as int implies (
                    #[trigger] self@[x]) == pre[x] by {
                        assert(self.entries@[x] == prev_entries[x]);
                    }
                    assert(self@[k as int].0 == peer);
                    assert(self@[k as int].1 == pre[k as int].1.push(tx));
                    assert(self@.len() == pre.len());
                    assert forall|a: int, b: int| 0 <= a < b < self@.len() implies (
                    #[trigger] self@[a]).0 != (#[trigger] self@[b]).0 by {
                        assert(self@[a].0 == pre[a].0);
                        assert(self@[b].0 == pre[b].0);
                    }
                    assert forall|p: PeerIndex| #[trigger] pb_has(self@, p) implies (pb_has(
                        pre,
                        p,
                    ) || p == peer) by {
                        let j = choose|j: int| 0 <= j < self@.len() && (#[trigger] self@[j]).0
                            == p;
                        assert(pre[j].0 == p);
                    }
                    assert forall|p: PeerIndex| pb_has(pre, p) implies pb_has(self@, p) by {
                        let j = choose|j: int| 0 <= j < pre.len() && (#[trigger] pre[j]).0 == p;
                        assert(self@[j].0 == p);
                    }
                    assert forall|p: PeerIndex| p != peer && pb_has(pre, p) implies
                        #[trigger] pb_batch(self@, p) == pb_batch(pre, p) by {
                        let wp = pb_at(pre, p);
                        assert(0 <= wp < pre.len() && pre[wp].0 == p);
                        assert(wp != k as int);
                        let wq = pb_at(self@, p);
                        assert(0 <= wq < self@.len() && self@[wq].0 == p);
                        if wq != wp {
                            assert(self@[wq].0 == pre[wq].0);
                        }
                        assert(self@[wp] == pre[wp]);
                    }
                    assert(pb_at(self@, peer) == k as int) by {
                        let wq = pb_at(self@, peer);
                        assert(0 <= wq < self@.len() && self@[wq].0 == peer);
                        if wq != k as int {
                            assert(self@[wq].0 == pre[wq].0);
                            assert(pre[wq].0 != peer);
                        }
                    }
                    assert(pb_batch(self@, peer) == pb_batch(pre, peer).push(tx));
                }
                return ;
            }
            k += 1;
        }
        proof {
            if pb_has(pre, peer) {
                let w = choose|j: int| 0 <= j < pre.len() && (#[trigger] pre[j]).0 == peer;
                assert(false);
            }
        }
        let mut txs: Vec<Transaction> = Vec::new();
        txs.push(tx);
        self.entries.push((peer, txs));
        proof {
            assert(self@ =~= pre.push((peer, seq![tx])));
            assert forall|a: int, b: int| 0 <= a < b < self@.len() implies (#[trigger] self@[a]).0
                != (#[trigger] self@[b]).0 by {
                if b == self@.len() - 1 {
                    if pre[a].0 == peer {
                        assert(pb_has(pre, peer));
                    }
                } else {
                    assert(self@[a] == pre[a]);
                    assert(self@[b] == pre[b]);
                }
            }
            assert(self@[pre.len() as int].0 == peer);
            assert(pb_has(self@, peer));
            assert forall|p: PeerIndex| #[trigger] pb_has(self@, p) implies (pb_has(pre, p) || p
                == peer) by {
                let j = choose|j: int| 0 <= j < self@.len() && (#[trigger] self@[j]).0 == p;
                if j < pre.len() {
                    assert(pre[j].0 == p);
                }
            }
            assert forall|p: PeerIndex| pb_has(pre, p) implies pb_has(self@, p) by {
                let j = choose|j: int| 0 <= j < pre.len() && (#[trigger] pre[j]).0 == p;
                assert(self@[j].0 == p);
            }
            assert forall|p: PeerIndex| p != peer && pb_has(pre, p) implies #[trigger] pb_batch(
                self@,
                p,
            ) == pb_batch(pre, p) by {
                let wp = pb_at(pre, p);
                assert(0 <= wp < pre.len() && pre[wp].0 == p);
                let wq = pb_at(self@, p);
                assert(0 <= wq < self@.len() && self@[wq].0 == p);
                if wq == pre.len() as int {
                    assert(self@[wq].0 == peer);
                    assert(false);
                }
                assert(self@[wq].0 == pre[wq].0);
                assert(self@[wp] == pre[wp]);
            }
            assert(pb_at(self@, peer) == pre.len() as int) by {
                let wq = pb_at(self@, peer);
                assert(0 <= wq < self@.len() && self@[wq].0 == peer);
                if wq < pre.len() {
                    assert(pre[wq].0 == peer);
                    assert(pb_has(pre, peer));
                }
            }
            assert(pb_batch(self@, peer) =~= pb_batch(pre, peer).push(tx));
        }
    }

    /// Hands the batches out for sending.
    pub fn into_vec(self) -> (r: Vec<(PeerIndex, Vec<Transaction>)>)
        ensures
            pb_view(r@) == self@,
    {
        self.entries
    }
}

} // verus!

