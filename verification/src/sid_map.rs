//! A map from short transaction ids to transactions, used to index the
//! reconstruction candidates. Keys are unique; a later insert for an
//! existing key replaces the stored transaction (last writer wins).

use vstd::prelude::*;
use crate::types::Transaction;
use crate::short_id::ShortId;

verus! {

/// Whether some entry of `s` carries the key `sid`.
pub open spec fn keyed(s: Seq<(ShortId, Transaction)>, sid: ShortId) -> bool {
    exists|k: int| 0 <= k < s.len() && (#[trigger] s[k]).0 == sid
}

/// The position of the entry carrying `sid`.
pub open spec fn key_at(s: Seq<(ShortId, Transaction)>, sid: ShortId) -> int {
    choose|k: int| 0 <= k < s.len() && (#[trigger] s[k]).0 == sid
}

/// The map a sequence of entries stands for.
pub open spec fn entries_map(s: Seq<(ShortId, Transaction)>) -> Map<ShortId, Transaction> {
    Map::new(|sid: ShortId| keyed(s, sid), |sid: ShortId| s[key_at(s, sid)].1)
}

/// Keys occur at most once.
pub open spec fn entries_uniq(s: Seq<(ShortId, Transaction)>) -> bool {
    forall|a: int, b: int| 0 <= a < b < s.len() ==> (#[trigger] s[a]).0 != (#[trigger] s[b]).0
}

/// Removing the entry at `k` by a swap with the last entry removes exactly
/// its key from the map the entries stand for.
proof fn lemma_swap_remove_view(pre: Seq<(ShortId, Transaction)>, k: int)
    requires
        entries_uniq(pre),
        0 <= k < pre.len(),
    ensures
        entries_uniq(pre.update(k, pre.last()).drop_last()),
        entries_map(pre.update(k, pre.last()).drop_last()) == entries_map(pre).remove(pre[k].0),
{
    let post = pre.update(k, pre.last()).drop_last();
    let sid = pre[k].0;
    let n = pre.len() as int;
    assert(post.len() == n - 1);
    assert(forall|j: int| 0 <= j < n - 1 ==> post[j] == (if j == k {
        pre[n - 1]
    } else {
        pre[j]
    }));
    assert forall|a: int, b: int| 0 <= a < b < post.len() implies (#[trigger] post[a]).0
        != (#[trigger] post[b]).0 by {
        let ja: int = if a == k { n - 1 } else { a };
        let jb: int = if b == k { n - 1 } else { b };
        assert(post[a] == pre[ja]);
        assert(post[b] == pre[jb]);
        assert(ja != jb);
    }
    assert forall|s: ShortId| keyed(post, s) implies keyed(pre, s) && s != sid by {
        let j = choose|j: int| 0 <= j < post.len() && (#[trigger] post[j]).0 == s;
        let jp: int = if j == k { n - 1 } else { j };
        assert(pre[jp].0 == s);
        if s == sid {
            assert(pre[jp].0 == pre[k].0);
            assert(jp == k);
            assert(false);
        }
    }
    assert forall|s: ShortId| keyed(pre, s) && s != sid implies keyed(post, s) by {
        let w = choose|j: int| 0 <= j < pre.len() && (#[trigger] pre[j]).0 == s;
        assert(w != k);
        if w < n - 1 {
            assert(post[w].0 == s);
        } else {
            assert(k < n - 1);
            assert(post[k].0 == s);
        }
    }
    assert forall|s: ShortId| #[trigger] keyed(post, s) implies entries_map(post)[s]
        == entries_map(pre)[s] by {
        let jp = key_at(post, s);
        assert(0 <= jp < post.len() && post[jp].0 == s);
        let jq: int = if jp == k { n - 1 } else { jp };
        assert(post[jp] == pre[jq]);
        let w = key_at(pre, s);
        assert(0 <= w < pre.len() && pre[w].0 == s);
        assert(w == jq);
    }
    assert(entries_map(post) =~= entries_map(pre).remove(sid));
}

/// Appending an entry with a fresh key binds exactly that key.
proof fn lemma_push_view(pre: Seq<(ShortId, Transaction)>, sid: ShortId, tx: Transaction)
    requires
        entries_uniq(pre),
        !keyed(pre, sid),
    ensures
        entries_uniq(pre.push((sid, tx))),
        entries_map(pre.push((sid, tx))) == entries_map(pre).insert(sid, tx),
{
    let post = pre.push((sid, tx));
    let n = pre.len() as int;
    assert(forall|j: int| 0 <= j < n ==> post[j] == pre[j]);
    assert(post[n] == (sid, tx));
    assert forall|a: int, b: int| 0 <= a < b < post.len() implies (#[trigger] post[a]).0
        != (#[trigger] post[b]).0 by {
        if b == n {
            assert(post[a].0 == pre[a].0);
            if pre[a].0 == sid {
                assert(keyed(pre, sid));
            }
        }
    }
    assert forall|s: ShortId| keyed(pre, s) implies keyed(post, s) by {
        let w = choose|j: int| 0 <= j < pre.len() && (#[trigger] pre[j]).0 == s;
        assert(post[w].0 == s);
    }
    assert(post[n].0 == sid);
    assert(keyed(post, sid));
    assert forall|s: ShortId| #[trigger] keyed(post, s) implies (s == sid || keyed(pre, s)) by {
        let j = choose|j: int| 0 <= j < post.len() && (#[trigger] post[j]).0 == s;
        if j < n {
            assert(pre[j].0 == s);
        }
    }
    assert forall|s: ShortId| #[trigger] keyed(post, s) implies entries_map(post)[s] == (if s
        == sid {
        tx
    } else {
        entries_map(pre)[s]
    }) by {
        let jp = key_at(post, s);
        assert(0 <= jp < post.len() && post[jp].0 == s);
        if s == sid {
            if jp < n {
                assert(pre[jp].0 == sid);
                assert(keyed(pre, sid));
                assert(false);
            }
            assert(post[jp].1 == tx);
        } else {
            assert(jp < n);
            let w = key_at(pre, s);
            assert(0 <= w < pre.len() && pre[w].0 == s);
            assert(w == jp);
        }
    }
    assert(entries_map(post) =~= entries_map(pre).insert(sid, tx));
}

/// The candidate index of the reconstructor.
pub struct SidMap {
    entries: Vec<(ShortId, Transaction)>,
}

impl SidMap {
    /// Keys occur at most once among the entries.
    pub closed spec fn wf(&self) -> bool {
        entries_uniq(self.entries@)
    }

    /// The map this container stands for.
    pub closed spec fn view(&self) -> Map<ShortId, Transaction> {
        entries_map(self.entries@)
    }

    /// An empty map.
    pub fn new() -> (r: SidMap)
        ensures
            r.wf(),
            r@ == Map::<ShortId, Transaction>::empty(),
    {
        let r = SidMap { entries: Vec::new() };
        proof {
            assert(r@ =~= Map::<ShortId, Transaction>::empty());
        }
        r
    }

    /// The position of the entry carrying `sid`, if one exists.
    fn position_of(&self, sid: ShortId) -> (r: Option<usize>)
        requires
            self.wf(),
        ensures
            match r {
                Some(k) => k < self.entries@.len() && self.entries@[k as int].0 == sid
                    && self@.contains_key(sid) && self@[sid] == self.entries@[k as int].1,
                None => !self@.contains_key(sid),
            },
    {
        let mut k: usize = 0;
        while k < self.entries.len()
            invariant
                self.wf(),
                k <= self.entries@.len(),
                forall|j: int| 0 <= j < k ==> (#[trigger] self.entries@[j]).0 != sid,
            decreases self.entries@.len() - k,
        {
            if self.entries[k].0 == sid {
                proof {
                    assert(keyed(self.entries@, sid));
                    let w = key_at(self.entries@, sid);
                    assert(0 <= w < self.entries@.len() && self.entries@[w].0 == sid);
                    assert(entries_uniq(self.entries@));
                    if w < k as int {
                        assert(self.entries@[w].0 != sid);
                    } else if w > k as int {
                        assert(0 <= (k as int) && (k as int) < w && w < self.entries@.len());
                        assert((self.entries@[k as int]).0 != (self.entries@[w]).0);
                    }
                    assert(w == k as int);
                }
                return Some(k);
            }
            k += 1;
        }
        proof {
            if keyed(self.entries@, sid) {
                let w = choose|j: int| 0 <= j < self.entries@.len()
                    && (#[trigger] self.entries@[j]).0 == sid;
                assert(false);
            }
        }
        None
    }

    /// Binds `sid` to `tx`, replacing any earlier binding.
    pub fn insert(&mut self, sid: ShortId, tx: Transaction)
        requires
            old(self).wf(),
        ensures
            final(self).wf(),
            final(self)@ == old(self)@.insert(sid, tx),
    {
        let ghost pre = self@;
        match self.position_of(sid) {
            Some(k) => {
                proof {
                    lemma_swap_remove_view(self.entries@, k as int);
                }
                self.entries.swap_remove(k);
                proof {
                    lemma_push_view(self.entries@, sid, tx);
                }
                self.entries.push((sid, tx));
                proof {
                    assert(self@ =~= pre.insert(sid, tx));
                }
            },
            None => {
                proof {
                    lemma_push_view(self.entries@, sid, tx);
                }
                self.entries.push((sid, tx));
                proof {
                    assert(self@ =~= pre.insert(sid, tx));
                }
            },
        }
    }

    /// Removes the binding of `sid`, handing back the bound transaction.
    pub fn remove(&mut self, sid: ShortId) -> (r: Option<Transaction>)
        requires
            old(self).wf(),
        ensures
            final(self).wf(),
            final(self)@ == old(self)@.remove(sid),
            r == if old(self)@.contains_key(sid) {
                Some(old(self)@[sid])
            } else {
                None::<Transaction>
            },
    {
        let ghost pre = self@;
        match self.position_of(sid) {
            Some(k) => {
                proof {
                    lemma_swap_remove_view(self.entries@, k as int);
                }
                let e = self.entries.swap_remove(k);
                Some(e.1)
            },
            None => {
                proof {
                    assert(self@ =~= pre.remove(sid));
                }
                None
            },
        }
    }
}

} // verus!
