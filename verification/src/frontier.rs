//! The search frontier: a min-priority queue of [`Item`]s.
//!
//! Entries are kept in buckets indexed by priority, so extraction always
//! yields an entry of least priority among those present. Ties within one
//! priority are broken arbitrarily.

use crate::state::State;
use vstd::prelude::*;

verus! {

/// A frontier entry: a priority key (path cost so far plus heuristic) paired
/// with the state it was computed for.
#[derive(Debug, PartialEq, Eq, Hash)]
pub struct Item(pub usize, pub State);

/// Total number of entries over all buckets.
pub open spec fn total(s: Seq<Seq<Item>>) -> int
    decreases s.len(),
{
    if s.len() == 0 {
        0
    } else {
        total(s.drop_last()) + s.last().len()
    }
}

pub proof fn lemma_total_nonneg(s: Seq<Seq<Item>>)
    ensures
        total(s) >= 0,
    decreases s.len(),
{
    if s.len() > 0 {
        lemma_total_nonneg(s.drop_last());
    }
}

proof fn lemma_total_update(s: Seq<Seq<Item>>, p: int, b: Seq<Item>)
    requires
        0 <= p < s.len(),
    ensures
        total(s.update(p, b)) == total(s) - s[p].len() + b.len(),
    decreases s.len(),
{
    let t = s.update(p, b);
    if p == s.len() - 1 {
        assert(t.drop_last() =~= s.drop_last());
    } else {
        assert(t.drop_last() =~= s.drop_last().update(p, b));
        lemma_total_update(s.drop_last(), p, b);
    }
}

proof fn lemma_total_push(s: Seq<Seq<Item>>, b: Seq<Item>)
    ensures
        total(s.push(b)) == total(s) + b.len(),
{
    assert(s.push(b).drop_last() =~= s);
}

proof fn lemma_total_zero(s: Seq<Seq<Item>>)
    requires
        forall|p: int| 0 <= p < s.len() ==> s[p].len() == 0,
    ensures
        total(s) == 0,
    decreases s.len(),
{
    if s.len() > 0 {
        lemma_total_zero(s.drop_last());
    }
}

/// Min-priority queue over [`Item`]s, bucketed by priority key.
pub struct Frontier {
    buckets: Vec<Vec<Item>>,
    cur: usize,
}

impl View for Frontier {
    type V = Seq<Seq<Item>>;

    closed spec fn view(&self) -> Seq<Seq<Item>> {
        self.buckets@.map_values(|b: Vec<Item>| b@)
    }
}

impl Frontier {
    /// Buckets below the scan cursor are empty, and every entry sits in the
    /// bucket of its own priority key.
    pub closed spec fn inv(&self) -> bool {
        &&& self.cur <= self@.len()
        &&& forall|p: int| 0 <= p < self.cur ==> self@[p].len() == 0
        &&& forall|p: int, j: int|
            0 <= p < self@.len() && 0 <= j < self@[p].len() ==> (#[trigger] self@[p][j]).0 == p
    }

    pub fn new() -> (r: Frontier)
        ensures
            r.inv(),
            r@.len() == 0,
            total(r@) == 0,
    {
        let r = Frontier { buckets: Vec::new(), cur: 0 };
        proof {
            assert(r@ =~= Seq::<Seq<Item>>::empty());
        }
        r
    }

    /// Add an entry; its bucket is its priority key.
    pub fn push(&mut self, it: Item)
        requires
            old(self).inv(),
        ensures
            final(self).inv(),
            total(final(self)@) == total(old(self)@) + 1,
            final(self)@.len() >= old(self)@.len(),
            it.0 < final(self)@.len(),
            final(self)@[it.0 as int] == (if it.0 < old(self)@.len() {
                old(self)@[it.0 as int]
            } else {
                Seq::<Item>::empty()
            }).push(it),
            forall|q: int|
                0 <= q < final(self)@.len() && q != it.0 ==> #[trigger] final(self)@[q] == (if q
                    < old(self)@.len() {
                    old(self)@[q]
                } else {
                    Seq::<Item>::empty()
                }),
    {
        let p = it.0;
        while self.buckets.len() <= p
            invariant
                self.inv(),
                self@.len() >= old(self)@.len(),
                total(self@) == total(old(self)@),
                self.cur == old(self).cur,
                forall|q: int|
                    0 <= q < self@.len() ==> #[trigger] self@[q] == (if q < old(self)@.len() {
                        old(self)@[q]
                    } else {
                        Seq::<Item>::empty()
                    }),
            decreases p + 1 - self.buckets.len(),
        {
            let ghost pre = self@;
            self.buckets.push(Vec::new());
            proof {
                assert(self@ =~= pre.push(Seq::<Item>::empty()));
                lemma_total_push(pre, Seq::<Item>::empty());
            }
        }
        if p < self.cur {
            self.cur = p;
        }
        let ghost mid = self@;
        let row: &mut Vec<Item> = &mut self.buckets[p];
        row.push(it);
        proof {
            assert(self@ =~= mid.update(p as int, mid[p as int].push(it)));
            lemma_total_update(mid, p as int, mid[p as int].push(it));
        }
    }

    /// Remove and return an entry of least priority, or `None` when the
    /// frontier is empty.
    pub fn pop(&mut self) -> (r: Option<Item>)
        requires
            old(self).inv(),
        ensures
            final(self).inv(),
            match r {
                None => {
                    &&& final(self)@ == old(self)@
                    &&& total(final(self)@) == 0
                    &&& forall|p: int| 0 <= p < final(self)@.len() ==> final(self)@[p].len() == 0
                },
                Some(it) => {
                    let p = it.0 as int;
                    &&& 0 <= p < old(self)@.len()
                    &&& old(self)@[p].len() > 0
                    &&& it == old(self)@[p].last()
                    &&& final(self)@ == old(self)@.update(p, old(self)@[p].drop_last())
                    &&& total(final(self)@) == total(old(self)@) - 1
                    &&& forall|q: int| 0 <= q < p ==> old(self)@[q].len() == 0
                },
            },
    {
        while self.cur < self.buckets.len() && self.buckets[self.cur].len() == 0
            invariant
                self.inv(),
                self@ == old(self)@,
                self.buckets@.len() == old(self).buckets@.len(),
            decreases self.buckets.len() - self.cur,
        {
            self.cur = self.cur + 1;
        }
        if self.cur >= self.buckets.len() {
            proof {
                lemma_total_zero(self@);
            }
            return None;
        }
        let p = self.cur;
        let ghost pre = self@;
        let row: &mut Vec<Item> = &mut self.buckets[p];
        match row.pop() {
            Some(it) => {
                proof {
                    assert(self@ =~= pre.update(p as int, pre[p as int].drop_last()));
                    lemma_total_update(pre, p as int, pre[p as int].drop_last());
                    assert(it == pre[p as int].last());
                }
                Some(it)
            },
            None => {
                proof {
                    assert(false);
                }
                None
            },
        }
    }
}

} // verus!
