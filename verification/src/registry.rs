use crate::state::{default_member_state, MemberState};
use vstd::prelude::*;

verus! {

/// One stored ledger record, keyed by participant identity.
#[derive(Clone, Copy, Debug)]
pub struct MemberRecord {
    pub id: u64,
    pub state: MemberState,
}

/// The per-identity ledger records, created lazily: an identity that was
/// never written reads as `default_member_state`, and nothing is ever
/// deleted.
#[derive(Clone, Debug)]
pub struct MemberRegistry {
    pub records: Vec<MemberRecord>,
}

/// The record stored for `id` in `s`, or the default when none is.
pub open spec fn lookup(s: Seq<MemberRecord>, id: u64) -> MemberState
    decreases s.len(),
{
    if s.len() == 0 {
        default_member_state()
    } else if s[0].id == id {
        s[0].state
    } else {
        lookup(s.drop_first(), id)
    }
}

/// Sum of the penalty balances that `reg` stores for `ids`, in order.
pub open spec fn sum_penalties(reg: MemberRegistry, ids: Seq<u64>) -> int
    decreases ids.len(),
{
    if ids.len() == 0 {
        0
    } else {
        sum_penalties(reg, ids.drop_last()) + reg.spec_get(ids.last()).penalties_accrued
    }
}

/// When every identity's balance moves by its own pointwise delta (the fine
/// for a clear bit, plus the uniform share), the total over the first `k`
/// identities moves by the sum of those deltas.
pub proof fn lemma_sum_after_cycle(
    pre: MemberRegistry,
    post: MemberRegistry,
    ids: Seq<u64>,
    bm: u32,
    unit: int,
    share: int,
    k: int,
)
    requires
        0 <= k <= ids.len(),
        forall|i: int|
            0 <= i < ids.len() ==> post.spec_get(ids[i]).penalties_accrued as int == pre.spec_get(
                ids[i],
            ).penalties_accrued - (if crate::bitmap::bit(bm, i) {
                0int
            } else {
                unit
            }) + share,
    ensures
        sum_penalties(post, ids.take(k)) == sum_penalties(pre, ids.take(k)) - unit
            * crate::bitmap::missed_below(bm, k) + k * share,
    decreases k,
{
    if k > 0 {
        lemma_sum_after_cycle(pre, post, ids, bm, unit, share, k - 1);
        assert(ids.take(k).drop_last() =~= ids.take(k - 1));
        assert(ids.take(k).last() == ids[k - 1]);
        assert(post.spec_get(ids[k - 1]).penalties_accrued as int == pre.spec_get(
            ids[k - 1],
        ).penalties_accrued - (if crate::bitmap::bit(bm, k - 1) {
            0int
        } else {
            unit
        }) + share);
        assert(sum_penalties(post, ids.take(k)) == sum_penalties(post, ids.take(k - 1))
            + post.spec_get(ids[k - 1]).penalties_accrued);
        assert(sum_penalties(pre, ids.take(k)) == sum_penalties(pre, ids.take(k - 1))
            + pre.spec_get(ids[k - 1]).penalties_accrued);
        let m1 = crate::bitmap::missed_below(bm, k - 1);
        let m2 = crate::bitmap::missed_below(bm, k);
        assert(m2 == m1 + if crate::bitmap::bit(bm, k - 1) {
            0int
        } else {
            1int
        });
        assert(unit * m2 == unit * m1 + (if crate::bitmap::bit(bm, k - 1) {
            0int
        } else {
            unit
        })) by (nonlinear_arith)
            requires
                m2 == m1 + (if crate::bitmap::bit(bm, k - 1) {
                    0int
                } else {
                    1int
                }),
        ;
        assert(k * share == (k - 1) * share + share) by (nonlinear_arith);
        assert(sum_penalties(post, ids.take(k)) == sum_penalties(pre, ids.take(k)) - unit * m2 + k
            * share);
    }
    if k == 0 {
        assert(ids.take(0).len() == 0);
        assert(crate::bitmap::missed_below(bm, 0) == 0);
        assert(0int * share == 0) by (nonlinear_arith);
        assert(unit * 0int == 0) by (nonlinear_arith);
    }
}

/// An identity none of the records carry reads as the default.
pub proof fn lemma_lookup_absent(s: Seq<MemberRecord>, id: u64)
    requires
        forall|k: int| 0 <= k < s.len() ==> s[k].id != id,
    ensures
        lookup(s, id) == default_member_state(),
    decreases s.len(),
{
    if s.len() > 0 {
        assert(s[0].id != id);
        lemma_lookup_absent(s.drop_first(), id);
    }
}

/// With distinct keys, an identity reads as the one record that carries it.
pub proof fn lemma_lookup_present(s: Seq<MemberRecord>, id: u64, k: int)
    requires
        0 <= k < s.len(),
        s[k].id == id,
        forall|i: int, j: int| 0 <= i < j < s.len() ==> s[i].id != s[j].id,
    ensures
        lookup(s, id) == s[k].state,
    decreases s.len(),
{
    if k == 0 {
    } else {
        assert(s[0].id != id);
        lemma_lookup_present(s.drop_first(), id, k - 1);
    }
}

impl MemberRegistry {
    /// Keys are distinct, so each identity has at most one record.
    pub open spec fn wf(self) -> bool {
        forall|i: int, j: int|
            0 <= i < j < self.records@.len() ==> self.records@[i].id != self.records@[j].id
    }

    /// The ledger state of `id`: what is stored, or the default.
    pub open spec fn spec_get(self, id: u64) -> MemberState {
        lookup(self.records@, id)
    }

    /// An empty registry: every identity reads as the default.
    pub fn new() -> (r: MemberRegistry)
        ensures
            r.wf(),
            forall|id: u64| r.spec_get(id) == default_member_state(),
    {
        let r = MemberRegistry { records: Vec::new() };
        proof {
            assert forall|id: u64| r.spec_get(id) == default_member_state() by {
                lemma_lookup_absent(r.records@, id);
            }
        }
        r
    }

    /// Index of the record that carries `id`, if any.
    fn find(&self, id: u64) -> (r: Option<usize>)
        ensures
            match r {
                Some(i) => i < self.records@.len() && self.records@[i as int].id == id,
                None => forall|k: int| 0 <= k < self.records@.len() ==> self.records@[k].id != id,
            },
    {
        let n: usize = self.records.len();
        let mut i: usize = 0;
        while i < n
            invariant
                i <= n,
                n == self.records@.len(),
                forall|k: int| 0 <= k < i ==> self.records@[k].id != id,
            decreases n - i,
        {
            if self.records[i].id == id {
                return Some(i);
            }
            i = i + 1;
        }
        None
    }

    /// The record stored for `id`, or the default for a first-time identity.
    pub fn get(&self, id: u64) -> (m: MemberState)
        requires
            self.wf(),
        ensures
            m == self.spec_get(id),
    {
        match self.find(id) {
            Some(i) => {
                proof {
                    lemma_lookup_present(self.records@, id, i as int);
                }
                self.records[i].state
            },
            None => {
                proof {
                    lemma_lookup_absent(self.records@, id);
                }
                MemberState { reputation_score: 10, penalties_accrued: 0, last_deposit_cycle: 0 }
            },
        }
    }

    /// Writes the record for `id`, leaving every other identity's record as
    /// it was.
    pub fn set(&mut self, id: u64, m: MemberState)
        requires
            old(self).wf(),
        ensures
            final(self).wf(),
            final(self).spec_get(id) == m,
            forall|o: u64| o != id ==> final(self).spec_get(o) == old(self).spec_get(o),
    {
        let ghost s0 = self.records@;
        match self.find(id) {
            Some(i) => {
                self.records[i] = MemberRecord { id, state: m };
                proof {
                    let s1 = self.records@;
                    assert(s1 =~= s0.update(i as int, MemberRecord { id, state: m }));
                    assert(self.wf());
                    lemma_lookup_present(s1, id, i as int);
                    assert forall|o: u64| o != id implies self.spec_get(o) == lookup(s0, o) by {
                        if exists|k: int| 0 <= k < s0.len() && s0[k].id == o {
                            let k = choose|k: int| 0 <= k < s0.len() && s0[k].id == o;
                            assert(k != i);
                            lemma_lookup_present(s0, o, k);
                            lemma_lookup_present(s1, o, k);
                        } else {
                            assert(forall|k: int| 0 <= k < s0.len() ==> s0[k].id != o);
                            lemma_lookup_absent(s0, o);
                            lemma_lookup_absent(s1, o);
                        }
                    }
                }
            },
            None => {
                self.records.push(MemberRecord { id, state: m });
                proof {
                    let s1 = self.records@;
                    assert(s1 =~= s0.push(MemberRecord { id, state: m }));
                    assert(self.wf());
                    lemma_lookup_present(s1, id, s0.len() as int);
                    assert forall|o: u64| o != id implies self.spec_get(o) == lookup(s0, o) by {
                        if exists|k: int| 0 <= k < s0.len() && s0[k].id == o {
                            let k = choose|k: int| 0 <= k < s0.len() && s0[k].id == o;
                            lemma_lookup_present(s0, o, k);
                            lemma_lookup_present(s1, o, k);
                        } else {
                            lemma_lookup_absent(s0, o);
                            lemma_lookup_absent(s1, o);
                        }
                    }
                }
            },
        }
    }
}

} // verus!
