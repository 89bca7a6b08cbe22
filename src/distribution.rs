use crate::token::{slot_eq, slot_share, slot_view, Chainable, Slot};
use rand::Rng;
use vstd::prelude::*;

verus! {

/// Relies on rand::thread_rng and Rng::gen_range: a uniform draw from the half-open range
/// [0, bound). gen_range panics on an empty range, which the precondition rules out.
#[verifier::external_body]
fn draw_below(bound: usize) -> (r: usize)
    requires
        bound > 0,
    ensures
        r < bound,
{
    rand::thread_rng().gen_range(0..bound)
}

/// Sum of the counts of a list of entries.
pub open spec fn sum_counts<T: View>(e: Seq<(Slot<T>, usize)>) -> nat
    decreases e.len(),
{
    if e.len() == 0 {
        0
    } else {
        sum_counts(e.drop_last()) + e.last().1 as nat
    }
}

/// Sum of the counts of the entries whose key has the value `s`.
pub open spec fn count_of<T: View>(e: Seq<(Slot<T>, usize)>, s: Option<T::V>) -> nat
    decreases e.len(),
{
    if e.len() == 0 {
        0
    } else {
        count_of(e.drop_last(), s) + if slot_view(e.last().0) == s {
            e.last().1 as nat
        } else {
            0
        }
    }
}

/// The key selected by the draw `d`: the entry whose cumulative interval holds `d`.
pub open spec fn drawn_in<T: View>(e: Seq<(Slot<T>, usize)>, d: nat) -> Option<T::V>
    decreases e.len(),
{
    if e.len() == 0 {
        None
    } else if d >= sum_counts(e.drop_last()) {
        slot_view(e.last().0)
    } else {
        drawn_in(e.drop_last(), d)
    }
}

/// Number of draws in `[lo, hi)` that select the key `s`.
pub open spec fn hits<T: View>(e: Seq<(Slot<T>, usize)>, s: Option<T::V>, lo: nat, hi: nat) -> nat
    decreases hi - lo,
{
    if hi <= lo {
        0
    } else {
        hits(e, s, lo, (hi - 1) as nat) + if drawn_in(e, (hi - 1) as nat) == s {
            1nat
        } else {
            0
        }
    }
}

proof fn lemma_hits_split<T: View>(e: Seq<(Slot<T>, usize)>, s: Option<T::V>, lo: nat, mid: nat, hi: nat)
    requires
        lo <= mid <= hi,
    ensures
        hits(e, s, lo, hi) == hits(e, s, lo, mid) + hits(e, s, mid, hi),
    decreases hi - mid,
{
    if mid < hi {
        lemma_hits_split(e, s, lo, mid, (hi - 1) as nat);
    }
}

proof fn lemma_hits_prefix<T: View>(e: Seq<(Slot<T>, usize)>, s: Option<T::V>, hi: nat)
    requires
        e.len() > 0,
        hi <= sum_counts(e.drop_last()),
    ensures
        hits(e, s, 0, hi) == hits(e.drop_last(), s, 0, hi),
    decreases hi,
{
    if hi > 0 {
        lemma_hits_prefix(e, s, (hi - 1) as nat);
    }
}

proof fn lemma_hits_last<T: View>(e: Seq<(Slot<T>, usize)>, s: Option<T::V>, hi: nat)
    requires
        e.len() > 0,
        sum_counts(e.drop_last()) <= hi <= sum_counts(e),
    ensures
        hits(e, s, sum_counts(e.drop_last()), hi) == if slot_view(e.last().0) == s {
            hi - sum_counts(e.drop_last())
        } else {
            0
        },
    decreases hi,
{
    if hi > sum_counts(e.drop_last()) {
        lemma_hits_last(e, s, (hi - 1) as nat);
    }
}

proof fn lemma_hits_count<T: View>(e: Seq<(Slot<T>, usize)>, s: Option<T::V>)
    ensures
        hits(e, s, 0, sum_counts(e)) == count_of(e, s),
    decreases e.len(),
{
    if e.len() > 0 {
        let p = e.drop_last();
        let mid = sum_counts(p);
        lemma_hits_split(e, s, 0, mid, sum_counts(e));
        lemma_hits_prefix(e, s, mid);
        lemma_hits_last(e, s, sum_counts(e));
        lemma_hits_count(p, s);
    }
}

/// Keys pairwise distinct by value, counts positive.
pub open spec fn entries_wf<T: View>(e: Seq<(Slot<T>, usize)>) -> bool {
    &&& forall|i: int| 0 <= i < e.len() ==> e[i].1 > 0
    &&& forall|i: int, j: int|
        0 <= i < j < e.len() ==> slot_view(#[trigger] e[i].0) != slot_view(#[trigger] e[j].0)
    &&& sum_counts(e) <= usize::MAX
}

proof fn lemma_update<T: View>(e: Seq<(Slot<T>, usize)>, j: int, x: Slot<T>, c: usize)
    requires
        0 <= j < e.len(),
        slot_view(x) == slot_view(e[j].0),
    ensures
        sum_counts(e.update(j, (x, c))) == sum_counts(e) - e[j].1 + c,
        forall|s: Option<T::V>|
            #[trigger] count_of(e.update(j, (x, c)), s) == count_of(e, s) + if slot_view(x) == s {
                c - e[j].1
            } else {
                0
            },
    decreases e.len(),
{
    let u = e.update(j, (x, c));
    assert(u.len() == e.len());
    if j == e.len() - 1 {
        assert(u.drop_last() =~= e.drop_last());
        assert forall|s: Option<T::V>|
            #[trigger] count_of(u, s) == count_of(e, s) + if slot_view(x) == s {
                c - e[j].1
            } else {
                0
            } by {
            assert(count_of(u, s) == count_of(u.drop_last(), s) + if slot_view(u.last().0) == s {
                u.last().1 as nat
            } else {
                0
            });
        }
    } else {
        assert(u.drop_last() =~= e.drop_last().update(j, (x, c)));
        lemma_update(e.drop_last(), j, x, c);
        assert forall|s: Option<T::V>|
            #[trigger] count_of(u, s) == count_of(e, s) + if slot_view(x) == s {
                c - e[j].1
            } else {
                0
            } by {
            assert(count_of(u.drop_last(), s) == count_of(e.drop_last(), s) + if slot_view(x)
                == s {
                c - e[j].1
            } else {
                0
            });
        }
    }
}

proof fn lemma_count_unique<T: View>(e: Seq<(Slot<T>, usize)>, j: int)
    requires
        entries_wf(e),
        0 <= j < e.len(),
    ensures
        count_of(e, slot_view(e[j].0)) == e[j].1,
        e[j].1 <= sum_counts(e),
    decreases e.len(),
{
    let p = e.drop_last();
    if j == e.len() - 1 {
        lemma_count_absent(p, slot_view(e[j].0));
    } else {
        assert(p[j] == e[j]);
        lemma_count_unique(p, j);
    }
}

proof fn lemma_count_absent<T: View>(e: Seq<(Slot<T>, usize)>, s: Option<T::V>)
    requires
        forall|i: int| 0 <= i < e.len() ==> slot_view(#[trigger] e[i].0) != s,
    ensures
        count_of(e, s) == 0,
    decreases e.len(),
{
    if e.len() > 0 {
        let p = e.drop_last();
        assert forall|i: int| 0 <= i < p.len() implies slot_view(#[trigger] p[i].0) != s by {
            assert(p[i] == e[i]);
        }
        lemma_count_absent(p, s);
    }
}

proof fn lemma_prefix_mono<T: View>(e: Seq<(Slot<T>, usize)>, a: int, b: int)
    requires
        0 <= a <= b <= e.len(),
    ensures
        sum_counts(e.take(a)) <= sum_counts(e.take(b)),
    decreases b - a,
{
    if a < b {
        assert(e.take(b).drop_last() =~= e.take(b - 1));
        lemma_prefix_mono(e, a, b - 1);
    }
}

proof fn lemma_drawn_at<T: View>(e: Seq<(Slot<T>, usize)>, i: int, d: nat)
    requires
        0 <= i < e.len(),
        sum_counts(e.take(i)) <= d < sum_counts(e.take(i + 1)),
    ensures
        drawn_in(e, d) == slot_view(e[i].0),
    decreases e.len(),
{
    let p = e.drop_last();
    assert(e.take(e.len() as int) =~= e);
    assert(p =~= e.take(e.len() - 1));
    if i < e.len() - 1 {
        lemma_prefix_mono(e, i + 1, e.len() - 1);
        assert(p.take(i) =~= e.take(i));
        assert(p.take(i + 1) =~= e.take(i + 1));
        lemma_drawn_at(p, i, d);
    }
}

/// A successor distribution: how often each token, or the boundary, was seen to follow one
/// context.
pub struct Distribution<T> {
    entries: Vec<(Slot<T>, usize)>,
}

impl<T: Chainable> Distribution<T> {
    /// Keys distinct, counts positive, total within `usize`.
    pub closed spec fn wf(&self) -> bool {
        entries_wf(self.entries@)
    }

    /// How often the successor `s` was observed.
    pub closed spec fn count(&self, s: Option<T::V>) -> nat {
        count_of(self.entries@, s)
    }

    /// The sum of all counts.
    pub closed spec fn total(&self) -> nat {
        sum_counts(self.entries@)
    }

    /// The successor that the draw `d`, taken from `[0, total)`, selects.
    pub closed spec fn drawn(&self, d: nat) -> Option<T::V> {
        drawn_in(self.entries@, d)
    }

    /// How many of the draws `0, 1, ..., total - 1` select the successor `s`.
    pub closed spec fn draws_selecting(&self, s: Option<T::V>) -> nat {
        hits(self.entries@, s, 0, sum_counts(self.entries@))
    }

    /// Of the `total` equally likely draws, exactly `count(s)` select `s`: a uniform draw
    /// returns each successor with probability its count over the total.
    pub proof fn lemma_draw_frequency(&self, s: Option<T::V>)
        ensures
            self.draws_selecting(s) == self.count(s),
    {
        lemma_hits_count(self.entries@, s);
    }

    /// An empty distribution.
    pub fn new() -> (r: Self)
        ensures
            r.wf(),
            r.total() == 0,
            forall|s: Option<T::V>| r.count(s) == 0,
    {
        Distribution { entries: Vec::new() }
    }

    /// A well-formed distribution is empty exactly when every count is zero.
    pub proof fn lemma_total(&self)
        requires
            self.wf(),
        ensures
            self.total() <= usize::MAX,
            self.total() == 0 <==> forall|s: Option<T::V>| self.count(s) == 0,
            forall|s: Option<T::V>| self.count(s) <= self.total(),
    {
        let e = self.entries@;
        if e.len() > 0 {
            lemma_count_unique(e, e.len() - 1);
            assert(self.count(slot_view(e.last().0)) > 0);
        } else {
            assert forall|s: Option<T::V>| self.count(s) == 0 by {
                lemma_count_absent(e, s);
            }
        }
        assert forall|s: Option<T::V>| self.count(s) <= self.total() by {
            self.lemma_count_le(s);
        }
    }

    proof fn lemma_count_le(&self, s: Option<T::V>)
        requires
            self.wf(),
        ensures
            self.count(s) <= self.total(),
    {
        let e = self.entries@;
        if exists|i: int| 0 <= i < e.len() && slot_view(e[i].0) == s {
            let i = choose|i: int| 0 <= i < e.len() && slot_view(e[i].0) == s;
            lemma_count_unique(e, i);
        } else {
            lemma_count_absent(e, s);
        }
    }

    /// Whether nothing has been observed.
    pub fn is_empty(&self) -> (r: bool)
        requires
            self.wf(),
        ensures
            r == (self.total() == 0),
    {
        proof {
            if self.entries@.len() > 0 {
                lemma_count_unique(self.entries@, self.entries@.len() - 1);
            }
        }
        self.entries.len() == 0
    }

    /// Position of the entry whose key has the value of `s`, if any.
    fn find(&self, s: &Slot<T>) -> (r: Option<usize>)
        ensures
            match r {
                Some(j) => j < self.entries@.len() && slot_view(self.entries@[j as int].0)
                    == slot_view(*s),
                None => forall|i: int|
                    0 <= i < self.entries@.len() ==> slot_view(#[trigger] self.entries@[i].0)
                        != slot_view(*s),
            },
    {
        let mut i: usize = 0;
        while i < self.entries.len()
            invariant
                i <= self.entries@.len(),
                forall|k: int|
                    0 <= k < i ==> slot_view(#[trigger] self.entries@[k].0) != slot_view(*s),
            decreases self.entries@.len() - i,
        {
            if slot_eq(&self.entries[i].0, s) {
                return Some(i);
            }
            i += 1;
        }
        None
    }

    /// Records one more observation of `token`.
    pub fn add(&mut self, token: Slot<T>)
        requires
            old(self).wf(),
            old(self).total() < usize::MAX,
        ensures
            final(self).wf(),
            final(self).total() == old(self).total() + 1,
            forall|s: Option<T::V>|
                #[trigger] final(self).count(s) == old(self).count(s) + if s == slot_view(token) {
                    1int
                } else {
                    0
                },
    {
        let ghost e = self.entries@;
        match self.find(&token) {
            Some(j) => {
                let c = self.entries[j].1;
                proof {
                    lemma_count_unique(e, j as int);
                }
                let k = slot_share(&self.entries[j].0);
                self.entries.set(j, (k, c + 1));
                proof {
                    lemma_update(e, j as int, k, (c + 1) as usize);
                    assert(self.entries@ == e.update(j as int, (k, (c + 1) as usize)));
                    assert forall|a: int, b: int|
                        0 <= a < b < self.entries@.len() implies slot_view(
                        #[trigger] self.entries@[a].0,
                    ) != slot_view(#[trigger] self.entries@[b].0) by {
                        assert(slot_view(self.entries@[a].0) == slot_view(e[a].0));
                        assert(slot_view(self.entries@[b].0) == slot_view(e[b].0));
                    }
                }
            },
            None => {
                self.entries.push((token, 1));
                proof {
                    assert(self.entries@.drop_last() =~= e);
                }
            },
        }
    }

    /// The sum of all counts.
    pub fn total_weight(&self) -> (w: usize)
        requires
            self.wf(),
        ensures
            w == self.total(),
    {
        let mut acc: usize = 0;
        let mut i: usize = 0;
        while i < self.entries.len()
            invariant
                i <= self.entries@.len(),
                acc == sum_counts(self.entries@.take(i as int)),
                sum_counts(self.entries@) <= usize::MAX,
            decreases self.entries@.len() - i,
        {
            proof {
                assert(self.entries@.take(i + 1).drop_last() =~= self.entries@.take(i as int));
                lemma_prefix_mono(self.entries@, i + 1, self.entries@.len() as int);
                assert(self.entries@.take(self.entries@.len() as int) =~= self.entries@);
            }
            acc = acc + self.entries[i].1;
            i += 1;
        }
        proof {
            assert(self.entries@.take(i as int) =~= self.entries@);
        }
        acc
    }

    /// The successor that the draw selects: walking the entries in their fixed order, the
    /// first whose running sum of counts exceeds the draw.
    pub fn select(&self, draw: usize) -> (r: Slot<T>)
        requires
            self.wf(),
            draw < self.total(),
        ensures
            slot_view(r) == self.drawn(draw as nat),
            self.count(slot_view(r)) > 0,
    {
        let ghost e = self.entries@;
        let mut acc: usize = 0;
        let mut i: usize = 0;
        proof {
            assert(e.take(e.len() as int) =~= e);
        }
        while i < self.entries.len()
            invariant
                e == self.entries@,
                i <= e.len(),
                acc == sum_counts(e.take(i as int)),
                acc <= draw,
                draw < sum_counts(e),
                entries_wf(e),
                e.take(e.len() as int) == e,
            decreases e.len() - i,
        {
            proof {
                assert(e.take(i + 1).drop_last() =~= e.take(i as int));
                lemma_prefix_mono(e, i + 1, e.len() as int);
            }
            let next = acc + self.entries[i].1;
            if draw < next {
                proof {
                    lemma_drawn_at(e, i as int, draw as nat);
                    lemma_count_unique(e, i as int);
                }
                return slot_share(&self.entries[i].0);
            }
            acc = next;
            i += 1;
        }
        proof {
            assert(e.take(i as int) =~= e);
        }
        None
    }

    /// Draws a successor at random, each with probability its count over the total.
    pub fn sample(&self) -> (r: Slot<T>)
        requires
            self.wf(),
            self.total() > 0,
        ensures
            self.count(slot_view(r)) > 0,
    {
        let w = self.total_weight();
        let d = draw_below(w);
        self.select(d)
    }
}

} // verus!
