use vstd::prelude::*;
use vstd::multiset::Multiset;
use crate::GroupError;

verus! {

broadcast use vstd::seq_lib::group_to_multiset_ensures;

/// The item indices `0, 1, .., n - 1` in order.
pub open spec fn iota(n: nat) -> Seq<usize> {
    Seq::new(n, |i: int| i as usize)
}

/// Each item index below `n`, exactly once.
pub open spec fn full_mset(n: nat) -> Multiset<usize> {
    iota(n).to_multiset()
}

pub open spec fn set_views(v: Seq<Vec<usize>>) -> Seq<Seq<usize>> {
    v.map_values(|x: Vec<usize>| x@)
}

/// The members of a family of groups, as one multiset.
pub open spec fn msum(sets: Seq<Seq<usize>>) -> Multiset<usize>
    decreases sets.len(),
{
    if sets.len() == 0 {
        Multiset::empty()
    } else {
        msum(sets.drop_last()).add(sets.last().to_multiset())
    }
}

pub proof fn lemma_msum_append(a: Seq<Seq<usize>>, b: Seq<Seq<usize>>)
    ensures
        msum(a + b) == msum(a).add(msum(b)),
    decreases b.len(),
{
    if b.len() == 0 {
        assert(a + b =~= a);
        assert(msum(a).add(Multiset::empty()) =~= msum(a));
    } else {
        lemma_msum_append(a, b.drop_last());
        assert((a + b).drop_last() =~= a + b.drop_last());
        assert((a + b).last() == b.last());
        assert(msum(a).add(msum(b.drop_last())).add(b.last().to_multiset()) =~= msum(a).add(
            msum(b.drop_last()).add(b.last().to_multiset()),
        ));
    }
}

/// Under `n`, every index appears exactly once; at or above `n`, never.
pub proof fn lemma_full_count(n: nat, i: usize)
    requires
        n <= usize::MAX,
    ensures
        full_mset(n).count(i) == if (i as nat) < n {
            1nat
        } else {
            0nat
        },
    decreases n,
{
    if n == 0 {
        assert(iota(0) =~= Seq::<usize>::empty());
    } else {
        lemma_full_count((n - 1) as nat, i);
        let prev = iota((n - 1) as nat);
        let x = (n - 1) as usize;
        assert(iota(n) =~= prev.push(x));
        assert(prev.push(x).to_multiset() =~= prev.to_multiset().insert(x));
        assert(full_mset(n) == prev.to_multiset().insert(x));
        assert(full_mset((n - 1) as nat) == prev.to_multiset());
        if i == x {
            vstd::multiset::lemma_insert_increases_count_by_1(prev.to_multiset(), x);
            assert(full_mset(n).count(i) == prev.to_multiset().count(i) + 1);
        } else {
            vstd::multiset::lemma_insert_other_elements_unchanged(prev.to_multiset(), x, i);
            assert(full_mset(n).count(i) == prev.to_multiset().count(i));
        }
    }
}

/// The members of `s` whose label is `w`, in order.
pub open spec fn split_part(s: Seq<usize>, labels: Seq<u8>, w: u8) -> Seq<usize>
    decreases s.len(),
{
    if s.len() == 0 {
        Seq::empty()
    } else {
        let rest = split_part(s.drop_last(), labels.drop_last(), w);
        if labels.len() == s.len() && labels.last() == w {
            rest.push(s.last())
        } else {
            rest
        }
    }
}

proof fn lemma_split_part_sub(s: Seq<usize>, labels: Seq<u8>, w: u8)
    ensures
        forall|i: usize| crate::partition::bucket_has(split_part(s, labels, w), i as int)
            ==> crate::partition::bucket_has(s, i as int),
    decreases s.len(),
{
    if s.len() > 0 {
        lemma_split_part_sub(s.drop_last(), labels.drop_last(), w);
        assert forall|i: usize|
            crate::partition::bucket_has(split_part(s, labels, w), i as int) implies
            crate::partition::bucket_has(s, i as int) by {
            let p = split_part(s, labels, w);
            let t = choose|t: int| 0 <= t < p.len() && #[trigger] p[t] == i as int;
            let rest = split_part(s.drop_last(), labels.drop_last(), w);
            if labels.len() == s.len() && labels.last() == w && t == p.len() - 1 {
                assert(s[s.len() - 1] == i);
            } else {
                assert(rest[t] == i as int);
                assert(crate::partition::bucket_has(s.drop_last(), i as int));
                let t2 = choose|t2: int|
                    0 <= t2 < s.drop_last().len() && #[trigger] s.drop_last()[t2] == i as int;
                assert(s[t2] == i);
            }
        }
    }
}

/// A two-way split with valid labels loses and duplicates nothing.
proof fn lemma_split_part_mset(s: Seq<usize>, labels: Seq<u8>)
    requires
        labels.len() == s.len(),
        forall|t: int| 0 <= t < labels.len() ==> #[trigger] labels[t] <= 1,
    ensures
        split_part(s, labels, 0).to_multiset().add(split_part(s, labels, 1).to_multiset())
            =~= s.to_multiset(),
    decreases s.len(),
{
    if s.len() == 0 {
        assert(split_part(s, labels, 0) =~= Seq::<usize>::empty());
    } else {
        assert(forall|t: int|
            0 <= t < labels.drop_last().len() ==> #[trigger] labels.drop_last()[t] <= 1);
        lemma_split_part_mset(s.drop_last(), labels.drop_last());
        let r0 = split_part(s.drop_last(), labels.drop_last(), 0);
        let r1 = split_part(s.drop_last(), labels.drop_last(), 1);
        assert(s =~= s.drop_last().push(s.last()));
        if labels.last() == 0 {
            assert(split_part(s, labels, 0) == r0.push(s.last()));
            assert(split_part(s, labels, 1) == r1);
        } else {
            assert(labels.last() == 1);
            assert(split_part(s, labels, 1) == r1.push(s.last()));
            assert(split_part(s, labels, 0) == r0);
        }
    }
}

/// The recursive-bisection worklist: groups still larger than the bound wait
/// in `pending`; groups within the bound are final.  Taken together, the
/// groups always hold each of the `n` item indices exactly once.
pub struct Bisection {
    max_size: usize,
    n: usize,
    pending: Vec<Vec<usize>>,
    emitted: Vec<Vec<usize>>,
}

impl Bisection {
    pub closed spec fn item_count(self) -> nat {
        self.n as nat
    }

    pub closed spec fn max_size_spec(self) -> nat {
        self.max_size as nat
    }

    pub closed spec fn pending_view(self) -> Seq<Seq<usize>> {
        set_views(self.pending@)
    }

    pub closed spec fn emitted_view(self) -> Seq<Seq<usize>> {
        set_views(self.emitted@)
    }

    pub open spec fn done(self) -> bool {
        self.pending_view().len() == 0
    }

    /// Well-formedness: constructors establish it, methods preserve it.
    pub closed spec fn wf(self) -> bool {
        &&& self.max_size >= 1
        &&& msum(self.pending_view() + self.emitted_view()) == full_mset(self.n as nat)
        &&& forall|p: int|
            0 <= p < self.pending_view().len() ==> #[trigger] self.pending_view()[p].len()
                > self.max_size
        &&& forall|e: int|
            0 <= e < self.emitted_view().len() ==> #[trigger] self.emitted_view()[e].len()
                <= self.max_size
        &&& forall|p: int, t: int|
            0 <= p < self.pending_view().len() && 0 <= t < self.pending_view()[p].len()
                ==> #[trigger] self.pending_view()[p][t] < self.n
        &&& forall|e: int, t: int|
            0 <= e < self.emitted_view().len() && 0 <= t < self.emitted_view()[e].len()
                ==> #[trigger] self.emitted_view()[e][t] < self.n
    }

    /// Start a bisection of the items `0 .. n` under the group-size bound
    /// `max_size`: an input within the bound is final as it stands, as one
    /// group holding the entire input unchanged.
    pub fn new(n: usize, max_size: usize) -> (r: Bisection)
        requires
            max_size >= 1,
        ensures
            r.wf(),
            r.item_count() == n,
            r.max_size_spec() == max_size,
            n <= max_size ==> r.done() && r.emitted_view() =~= seq![iota(n as nat)],
            n > max_size ==> !r.done() && r.emitted_view().len() == 0,
    {
        let mut idx: Vec<usize> = Vec::new();
        let mut i: usize = 0;
        while i < n
            invariant
                i <= n,
                idx@ =~= iota(i as nat),
            decreases n - i,
        {
            idx.push(i);
            proof {
                assert(idx@ =~= iota((i + 1) as nat));
            }
            i = i + 1;
        }
        let mut pending: Vec<Vec<usize>> = Vec::new();
        let mut emitted: Vec<Vec<usize>> = Vec::new();
        if n <= max_size {
            emitted.push(idx);
        } else {
            pending.push(idx);
        }
        let r = Bisection { max_size, n, pending, emitted };
        proof {
            assert(set_views(r.pending@) + set_views(r.emitted@) =~= seq![iota(n as nat)]);
            let single = seq![iota(n as nat)];
            assert(single.drop_last() =~= Seq::<Seq<usize>>::empty());
            assert(msum(single.drop_last()) == Multiset::<usize>::empty());
            assert(single.last() == iota(n as nat));
            assert(msum(single) == Multiset::<usize>::empty().add(iota(n as nat).to_multiset()));
            assert(Multiset::<usize>::empty().add(iota(n as nat).to_multiset()) =~= iota(n as nat)
                .to_multiset());
            assert(msum(single) == full_mset(n as nat));
        }
        r
    }

    /// Whether every group is within the size bound.
    pub fn is_done(&self) -> (r: bool)
        ensures
            r == self.done(),
    {
        self.pending.len() == 0
    }

    /// The size bound this bisection was started with.
    pub fn size_bound(&self) -> (r: usize)
        ensures
            r == self.max_size_spec(),
    {
        self.max_size
    }

    /// The next oversized group to split, or `None` once all groups are
    /// within the bound.
    pub fn next_pending(&self) -> (r: Option<Vec<usize>>)
        requires
            self.wf(),
        ensures
            match r {
                None => self.done(),
                Some(s) => {
                    &&& !self.done()
                    &&& s@ == self.pending_view().last()
                    &&& s@.len() > self.max_size_spec()
                    &&& forall|t: int| 0 <= t < s@.len() ==> #[trigger] s@[t] < self.item_count()
                },
            },
    {
        if self.pending.len() == 0 {
            return None;
        }
        let last = self.pending.len() - 1;
        let src = &self.pending[last];
        let mut out: Vec<usize> = Vec::new();
        let mut t: usize = 0;
        while t < src.len()
            invariant
                t <= src@.len(),
                out@ =~= src@.take(t as int),
            decreases src@.len() - t,
        {
            out.push(src[t]);
            proof {
                assert(out@ =~= src@.take(t + 1));
            }
            t = t + 1;
        }
        proof {
            assert(src@.take(src@.len() as int) =~= src@);
            assert(self.pending_view()[last as int] == src@);
        }
        Some(out)
    }

    /// Split the group that `next_pending` gave according to `labels`: one
    /// label per member, each 0 or 1.  Both halves must be non-empty, or no
    /// progress was made; each half waits again or is final by its size.
    pub fn apply_split(&mut self, labels: &Vec<u8>) -> (r: Result<(), GroupError>)
        requires
            old(self).wf(),
        ensures
            final(self).wf(),
            final(self).item_count() == old(self).item_count(),
            final(self).max_size_spec() == old(self).max_size_spec(),
            ({
                let s = old(self).pending_view().last();
                let g0 = split_part(s, labels@, 0);
                let g1 = split_part(s, labels@, 1);
                match r {
                    Ok(()) => {
                        &&& !old(self).done()
                        &&& labels@.len() == s.len()
                        &&& forall|t: int| 0 <= t < labels@.len() ==> #[trigger] labels@[t] <= 1
                        &&& g0.len() >= 1
                        &&& g1.len() >= 1
                        &&& final(self).emitted_view() == old(self).emitted_view() + (if g0.len()
                            <= old(self).max_size_spec() {
                            seq![g0]
                        } else {
                            Seq::empty()
                        }) + (if g1.len() <= old(self).max_size_spec() {
                            seq![g1]
                        } else {
                            Seq::empty()
                        })
                        &&& final(self).pending_view() == old(self).pending_view().drop_last() + (
                        if g0.len() > old(self).max_size_spec() {
                            seq![g0]
                        } else {
                            Seq::empty()
                        }) + (if g1.len() > old(self).max_size_spec() {
                            seq![g1]
                        } else {
                            Seq::empty()
                        })
                    },
                    Err(GroupError::ClusterFailed) => {
                        &&& *final(self) == *old(self)
                        &&& (old(self).done() || labels@.len() != s.len() || exists|t: int|
                            0 <= t < labels@.len() && #[trigger] labels@[t] > 1)
                    },
                    Err(GroupError::NoProgress) => {
                        &&& *final(self) == *old(self)
                        &&& !old(self).done()
                        &&& labels@.len() == s.len()
                        &&& forall|t: int| 0 <= t < labels@.len() ==> #[trigger] labels@[t] <= 1
                        &&& (g0.len() == 0 || g1.len() == 0)
                    },
                    Err(_) => false,
                }
            }),
    {
        if self.pending.len() == 0 {
            return Err(GroupError::ClusterFailed);
        }
        let last = self.pending.len() - 1;
        let n_mem = self.pending[last].len();
        if labels.len() != n_mem {
            return Err(GroupError::ClusterFailed);
        }
        let ghost s = self.pending_view().last();
        let mut g0: Vec<usize> = Vec::new();
        let mut g1: Vec<usize> = Vec::new();
        let mut t: usize = 0;
        while t < n_mem
            invariant
                *self == *old(self),
                self.wf(),
                n_mem == self.pending@[last as int]@.len(),
                last == self.pending@.len() - 1,
                s == self.pending@[last as int]@,
                labels@.len() == n_mem,
                t <= n_mem,
                forall|u: int| 0 <= u < t ==> #[trigger] labels@[u] <= 1,
                g0@ =~= split_part(s.take(t as int), labels@.take(t as int), 0),
                g1@ =~= split_part(s.take(t as int), labels@.take(t as int), 1),
            decreases n_mem - t,
        {
            let lab = labels[t];
            if lab > 1 {
                return Err(GroupError::ClusterFailed);
            }
            proof {
                assert(s.take(t + 1).drop_last() =~= s.take(t as int));
                assert(labels@.take(t + 1).drop_last() =~= labels@.take(t as int));
                assert(s.take(t + 1).last() == s[t as int]);
                assert(labels@.take(t + 1).last() == labels@[t as int]);
                assert(labels@.take(t + 1).len() == s.take(t + 1).len());
            }
            if lab == 0 {
                g0.push(self.pending[last][t]);
            } else {
                g1.push(self.pending[last][t]);
            }
            proof {
                assert(g0@ =~= split_part(s.take(t + 1), labels@.take(t + 1), 0));
                assert(g1@ =~= split_part(s.take(t + 1), labels@.take(t + 1), 1));
            }
            t = t + 1;
        }
        proof {
            assert(s.take(n_mem as int) =~= s);
            assert(labels@.take(n_mem as int) =~= labels@);
        }
        if g0.len() == 0 || g1.len() == 0 {
            return Err(GroupError::NoProgress);
        }
        let ghost old_pending = self.pending_view();
        let ghost old_emitted = self.emitted_view();
        let ghost nn = self.n as nat;
        proof {
            lemma_msum_append(old_pending, old_emitted);
            lemma_split_part_mset(s, labels@);
            lemma_split_part_sub(s, labels@, 0);
            lemma_split_part_sub(s, labels@, 1);
        }
        self.pending.pop();
        let g0_big = g0.len() > self.max_size;
        let g1_big = g1.len() > self.max_size;
        if g0_big {
            self.pending.push(g0);
        } else {
            self.emitted.push(g0);
        }
        if g1_big {
            self.pending.push(g1);
        } else {
            self.emitted.push(g1);
        }
        proof {
            let gs0 = split_part(s, labels@, 0);
            let gs1 = split_part(s, labels@, 1);
            assert(self.pending_view() =~= old_pending.drop_last() + (if gs0.len() > self.max_size
                as nat {
                seq![gs0]
            } else {
                Seq::empty()
            }) + (if gs1.len() > self.max_size as nat {
                seq![gs1]
            } else {
                Seq::empty()
            }));
            assert(self.emitted_view() =~= old_emitted + (if gs0.len() <= self.max_size as nat {
                seq![gs0]
            } else {
                Seq::empty()
            }) + (if gs1.len() <= self.max_size as nat {
                seq![gs1]
            } else {
                Seq::empty()
            }));
            lemma_msum_append(self.pending_view(), self.emitted_view());
            lemma_msum_append(
                old_pending.drop_last() + (if gs0.len() > self.max_size as nat {
                    seq![gs0]
                } else {
                    Seq::empty()
                }),
                (if gs1.len() > self.max_size as nat {
                    seq![gs1]
                } else {
                    Seq::empty()
                }),
            );
            lemma_msum_append(
                old_pending.drop_last(),
                (if gs0.len() > self.max_size as nat {
                    seq![gs0]
                } else {
                    Seq::empty()
                }),
            );
            lemma_msum_append(
                old_emitted + (if gs0.len() <= self.max_size as nat {
                    seq![gs0]
                } else {
                    Seq::empty()
                }),
                (if gs1.len() <= self.max_size as nat {
                    seq![gs1]
                } else {
                    Seq::empty()
                }),
            );
            lemma_msum_append(
                old_emitted,
                (if gs0.len() <= self.max_size as nat {
                    seq![gs0]
                } else {
                    Seq::empty()
                }),
            );
            assert(msum(seq![gs0]) =~= gs0.to_multiset()) by {
                assert(seq![gs0].drop_last() =~= Seq::<Seq<usize>>::empty());
            }
            assert(msum(seq![gs1]) =~= gs1.to_multiset()) by {
                assert(seq![gs1].drop_last() =~= Seq::<Seq<usize>>::empty());
            }
            assert(msum(Seq::<Seq<usize>>::empty()) =~= Multiset::<usize>::empty());
            assert(msum(old_pending) == msum(old_pending.drop_last()).add(s.to_multiset()));
            assert(msum(self.pending_view() + self.emitted_view()) =~= full_mset(nn));
            assert forall|p: int| 0 <= p < self.pending_view().len()
                implies #[trigger] self.pending_view()[p].len() > self.max_size by {
                if p < old_pending.len() - 1 {
                    assert(self.pending_view()[p] == old_pending[p]);
                }
            }
            assert forall|e: int| 0 <= e < self.emitted_view().len()
                implies #[trigger] self.emitted_view()[e].len() <= self.max_size by {
                if e < old_emitted.len() {
                    assert(self.emitted_view()[e] == old_emitted[e]);
                }
            }
            assert forall|p: int, t: int|
                0 <= p < self.pending_view().len() && 0 <= t < self.pending_view()[p].len()
                implies #[trigger] self.pending_view()[p][t] < self.n by {
                if p < old_pending.len() - 1 {
                    assert(self.pending_view()[p] == old_pending[p]);
                } else {
                    let v = self.pending_view()[p];
                    assert(v == gs0 || v == gs1);
                    assert(crate::partition::bucket_has(v, v[t] as int));
                    assert(crate::partition::bucket_has(s, v[t] as int));
                    let u = choose|u: int| 0 <= u < s.len() && #[trigger] s[u] == v[t] as int;
                    assert(old_pending[old_pending.len() - 1][u] < self.n);
                }
            }
            assert forall|e: int, t: int|
                0 <= e < self.emitted_view().len() && 0 <= t < self.emitted_view()[e].len()
                implies #[trigger] self.emitted_view()[e][t] < self.n by {
                if e < old_emitted.len() {
                    assert(self.emitted_view()[e] == old_emitted[e]);
                } else {
                    let v = self.emitted_view()[e];
                    assert(v == gs0 || v == gs1);
                    assert(crate::partition::bucket_has(v, v[t] as int));
                    assert(crate::partition::bucket_has(s, v[t] as int));
                    let u = choose|u: int| 0 <= u < s.len() && #[trigger] s[u] == v[t] as int;
                    assert(old_pending[old_pending.len() - 1][u] < self.n);
                }
            }
        }
        Ok(())
    }

    /// The final groups, each within the size bound, together holding every
    /// item index exactly once.
    pub fn groups(self) -> (r: Vec<Vec<usize>>)
        requires
            self.wf(),
            self.done(),
        ensures
            set_views(r@) == self.emitted_view(),
            msum(set_views(r@)) == full_mset(self.item_count()),
            forall|e: int|
                0 <= e < r@.len() ==> #[trigger] r@[e]@.len() <= self.max_size_spec(),
            forall|e: int, t: int|
                0 <= e < r@.len() && 0 <= t < r@[e]@.len() ==> #[trigger] r@[e]@[t]
                    < self.item_count(),
    {
        proof {
            assert(self.pending_view() + self.emitted_view() =~= self.emitted_view());
            assert(forall|e: int|
                0 <= e < self.emitted@.len() ==> #[trigger] self.emitted@[e]@
                    == self.emitted_view()[e]);
        }
        let Bisection { max_size: _, n: _, pending: _, emitted } = self;
        emitted
    }
}

} // verus!
