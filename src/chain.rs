use crate::distribution::Distribution;
use crate::token::{slot_eq, slot_share, slot_view, Chainable, Slot};
use std::rc::Rc;
use vstd::prelude::*;

verus! {

/// The abstract value of a context window.
pub open spec fn ctx_view<T: View>(c: Seq<Slot<T>>) -> Seq<Option<T::V>> {
    c.map_values(|s: Slot<T>| slot_view(s))
}

/// The abstract values of a sequence of shared tokens.
pub open spec fn rc_views<T: View>(s: Seq<Rc<T>>) -> Seq<T::V> {
    s.map_values(|t: Rc<T>| t@)
}

/// The abstract values of a sequence of tokens.
pub open spec fn token_views<T: View>(s: Seq<T>) -> Seq<T::V> {
    s.map_values(|t: T| t@)
}

/// The window of `k` boundary markers: the start state of a chain of order `k`.
pub open spec fn start_context<V>(k: nat) -> Seq<Option<V>> {
    Seq::new(k, |i: int| None)
}

/// The window of `k` copies of the token `v`.
pub open spec fn repeated_context<V>(k: nat, v: V) -> Seq<Option<V>> {
    Seq::new(k, |i: int| Some(v))
}

/// The tokens with `k` boundary markers in front and one at the end.
pub open spec fn padded<V>(k: nat, tv: Seq<V>) -> Seq<Option<V>> {
    start_context(k) + tv.map_values(|v: V| Some(v)) + seq![None]
}

/// The context of the `i`-th window of size `k + 1` over the padded tokens.
pub open spec fn window_context<V>(k: nat, tv: Seq<V>, i: int) -> Seq<Option<V>> {
    padded(k, tv).subrange(i, i + k)
}

/// The successor of the `i`-th window of size `k + 1` over the padded tokens.
pub open spec fn window_successor<V>(k: nat, tv: Seq<V>, i: int) -> Option<V> {
    padded(k, tv)[i + k]
}

/// How many of the first `i` windows over the padded tokens are the pair `(c, s)`.
pub open spec fn observations<V>(k: nat, tv: Seq<V>, c: Seq<Option<V>>, s: Option<V>, i: nat) -> nat
    decreases i,
{
    if i == 0 {
        0
    } else {
        observations(k, tv, c, s, (i - 1) as nat) + if window_context(k, tv, i - 1) == c
            && window_successor(k, tv, i - 1) == s {
            1nat
        } else {
            0
        }
    }
}

proof fn lemma_ctx_push<T: View>(c: Seq<Slot<T>>, x: Slot<T>)
    ensures
        ctx_view(c.push(x)) == ctx_view(c).push(slot_view(x)),
{
    assert(ctx_view(c.push(x)) =~= ctx_view(c).push(slot_view(x)));
}

proof fn lemma_window_step<V>(k: nat, tv: Seq<V>, i: int)
    requires
        k >= 1,
        0 <= i <= tv.len(),
    ensures
        padded(k, tv).len() == k + tv.len() + 1,
        window_context(k, tv, i).drop_first().push(window_successor(k, tv, i)) == window_context(
            k,
            tv,
            i + 1,
        ) || i == tv.len(),
        i == tv.len() ==> window_successor(k, tv, i) is None,
{
    let p = padded(k, tv);
    assert(p.len() == k + tv.len() + 1);
    if i < tv.len() {
        assert(window_context(k, tv, i).drop_first().push(window_successor(k, tv, i))
            =~= window_context(k, tv, i + 1));
    } else {
        assert(p[i + k] == p.last());
    }
}

/// Sum, over the entries whose context is `c`, of the count of `s`.
pub open spec fn table_count<T: Chainable>(
    m: Seq<(Vec<Slot<T>>, Distribution<T>)>,
    c: Seq<Option<T::V>>,
    s: Option<T::V>,
) -> nat
    decreases m.len(),
{
    if m.len() == 0 {
        0
    } else {
        table_count(m.drop_last(), c, s) + if ctx_view(m.last().0@) == c {
            m.last().1.count(s)
        } else {
            0
        }
    }
}

/// Sum of the totals of all entries.
pub open spec fn table_total<T: Chainable>(m: Seq<(Vec<Slot<T>>, Distribution<T>)>) -> nat
    decreases m.len(),
{
    if m.len() == 0 {
        0
    } else {
        table_total(m.drop_last()) + m.last().1.total()
    }
}

proof fn lemma_table_update<T: Chainable>(
    m: Seq<(Vec<Slot<T>>, Distribution<T>)>,
    j: int,
    x: Vec<Slot<T>>,
    d: Distribution<T>,
)
    requires
        0 <= j < m.len(),
        ctx_view(x@) == ctx_view(m[j].0@),
    ensures
        table_total(m.update(j, (x, d))) == table_total(m) - m[j].1.total() + d.total(),
        forall|c: Seq<Option<T::V>>, s: Option<T::V>|
            #[trigger] table_count(m.update(j, (x, d)), c, s) == table_count(m, c, s) + if ctx_view(
                x@,
            ) == c {
                d.count(s) - m[j].1.count(s)
            } else {
                0
            },
    decreases m.len(),
{
    let u = m.update(j, (x, d));
    assert(u.len() == m.len());
    if j == m.len() - 1 {
        assert(u.drop_last() =~= m.drop_last());
    } else {
        assert(u.drop_last() =~= m.drop_last().update(j, (x, d)));
        lemma_table_update(m.drop_last(), j, x, d);
    }
    assert forall|c: Seq<Option<T::V>>, s: Option<T::V>|
        #[trigger] table_count(u, c, s) == table_count(m, c, s) + if ctx_view(x@) == c {
            d.count(s) - m[j].1.count(s)
        } else {
            0
        } by {
        if j < m.len() - 1 {
            assert(table_count(u.drop_last(), c, s) == table_count(m.drop_last(), c, s) + if ctx_view(
                x@,
            ) == c {
                d.count(s) - m[j].1.count(s)
            } else {
                0
            });
        }
    }
}

proof fn lemma_table_unique<T: Chainable>(m: Seq<(Vec<Slot<T>>, Distribution<T>)>, j: int)
    requires
        0 <= j < m.len(),
        forall|a: int, b: int|
            0 <= a < b < m.len() ==> ctx_view(#[trigger] m[a].0@) != ctx_view(#[trigger] m[b].0@),
    ensures
        forall|s: Option<T::V>| #[trigger]
            table_count(m, ctx_view(m[j].0@), s) == m[j].1.count(s),
        m[j].1.total() <= table_total(m),
    decreases m.len(),
{
    let p = m.drop_last();
    let c = ctx_view(m[j].0@);
    if j == m.len() - 1 {
        assert forall|i: int| 0 <= i < p.len() implies ctx_view(#[trigger] p[i].0@) != c by {
            assert(p[i] == m[i]);
        }
        lemma_table_absent(p, c);
        assert forall|s: Option<T::V>| #[trigger] table_count(m, c, s) == m[j].1.count(s) by {
            assert(table_count(p, c, s) == 0);
        }
    } else {
        assert(p[j] == m[j]);
        lemma_table_unique(p, j);
        assert(ctx_view(m[m.len() - 1].0@) != c);
        assert forall|s: Option<T::V>| #[trigger] table_count(m, c, s) == m[j].1.count(s) by {
            assert(table_count(p, c, s) == m[j].1.count(s));
        }
    }
}

proof fn lemma_table_absent<T: Chainable>(
    m: Seq<(Vec<Slot<T>>, Distribution<T>)>,
    c: Seq<Option<T::V>>,
)
    requires
        forall|i: int| 0 <= i < m.len() ==> ctx_view(#[trigger] m[i].0@) != c,
    ensures
        forall|s: Option<T::V>| #[trigger] table_count(m, c, s) == 0,
    decreases m.len(),
{
    if m.len() > 0 {
        let p = m.drop_last();
        assert forall|i: int| 0 <= i < p.len() implies ctx_view(#[trigger] p[i].0@) != c by {
            assert(p[i] == m[i]);
        }
        lemma_table_absent(p, c);
        assert(ctx_view(m[m.len() - 1].0@) != c);
        assert forall|s: Option<T::V>| #[trigger] table_count(m, c, s) == 0 by {
            assert(table_count(p, c, s) == 0);
        }
    }
}

/// A Markov chain of some order over tokens of type `T`.
pub struct Chain<T> {
    map: Vec<(Vec<Slot<T>>, Distribution<T>)>,
    order: usize,
    observed: usize,
}

impl<T: Chainable> Chain<T> {
    /// The table is well formed and every window that generation can reach has observations.
    pub closed spec fn wf(&self) -> bool {
        &&& self.table_wf()
        &&& self.keys_live()
        &&& self.successors_live()
    }

    /// Every context other than an all-boundary window has observations.
    pub closed spec fn keys_live(&self) -> bool {
        forall|c: Seq<Option<T::V>>|
            #[trigger] self.has_context(c) && c != start_context::<T::V>(c.len()) ==> !self.dead_end(
                c,
            )
    }

    /// The window that follows a context and an observed token has observations.
    pub closed spec fn successors_live(&self) -> bool {
        forall|c: Seq<Option<T::V>>, t: T::V|
            #[trigger] self.count(c, Some(t)) > 0 && c.len() >= 1 ==> !self.dead_end(
                c.drop_first().push(Some(t)),
            )
    }

    /// Order at least one, contexts distinct, every distribution well formed, the start
    /// window of the current order present, and the sum of all counts within `usize`.
    pub closed spec fn table_wf(&self) -> bool {
        &&& self.order >= 1
        &&& forall|j: int| 0 <= j < self.map@.len() ==> (#[trigger] self.map@[j]).1.wf()
        &&& forall|a: int, b: int|
            0 <= a < b < self.map@.len() ==> ctx_view(#[trigger] self.map@[a].0@) != ctx_view(
                #[trigger] self.map@[b].0@,
            )
        &&& self.has_context(start_context(self.order as nat))
        &&& table_total(self.map@) <= usize::MAX
        &&& self.observed == table_total(self.map@)
    }

    /// The number of context slots.
    pub closed spec fn current_order(&self) -> nat {
        self.order as nat
    }

    /// Whether the context window `c` is a key of the table.
    pub closed spec fn has_context(&self, c: Seq<Option<T::V>>) -> bool {
        exists|j: int| 0 <= j < self.map@.len() && ctx_view(#[trigger] self.map@[j].0@) == c
    }

    /// How often `s` was observed after the context window `c`.
    pub closed spec fn count(&self, c: Seq<Option<T::V>>, s: Option<T::V>) -> nat {
        table_count(self.map@, c, s)
    }

    /// The number of observations recorded in the table.
    pub closed spec fn total(&self) -> nat {
        table_total(self.map@)
    }

    /// Nothing was observed after the context window `c`.
    pub open spec fn dead_end(&self, c: Seq<Option<T::V>>) -> bool {
        forall|s: Option<T::V>| #[trigger] self.count(c, s) == 0
    }

    /// `out` is a sequence that generation can produce from the context window `c`: each
    /// token was observed after the window before it, and the boundary was observed after
    /// the last window.
    pub open spec fn walk(&self, c: Seq<Option<T::V>>, out: Seq<T::V>) -> bool
        decreases out.len(),
    {
        if out.len() == 0 {
            self.count(c, None) > 0
        } else {
            self.count(c, Some(out[0])) > 0 && self.walk(
                c.drop_first().push(Some(out[0])),
                out.drop_first(),
            )
        }
    }

    /// What a well-formed chain guarantees its callers: an order of at least one, a context
    /// for every observation, and observations for every context other than an all-boundary
    /// window.
    pub proof fn lemma_wf(&self)
        requires
            self.wf(),
        ensures
            self.current_order() >= 1,
            forall|c: Seq<Option<T::V>>, s: Option<T::V>|
                #[trigger] self.count(c, s) > 0 ==> self.has_context(c),
            forall|c: Seq<Option<T::V>>|
                #[trigger] self.has_context(c) && c != start_context::<T::V>(c.len())
                    ==> !self.dead_end(c),
    {
        assert forall|c: Seq<Option<T::V>>, s: Option<T::V>|
            #[trigger] self.count(c, s) > 0 implies self.has_context(c) by {
            if !self.has_context(c) {
                assert forall|i: int| 0 <= i < self.map@.len() implies ctx_view(
                    #[trigger] self.map@[i].0@,
                ) != c by {}
                lemma_table_absent(self.map@, c);
            }
        }
    }

    /// A token that occurs in no context window of the table has no repeated window either, so
    /// generation from it returns an empty sequence.
    pub proof fn lemma_unfed_token(&self, v: T::V)
        requires
            self.wf(),
            forall|c: Seq<Option<T::V>>| #[trigger] self.has_context(c) ==> !c.contains(Some(v)),
        ensures
            !self.has_context(repeated_context(self.current_order(), v)),
    {
        let r = repeated_context::<T::V>(self.current_order(), v);
        assert(r[0] == Some(v));
        assert(r.contains(Some(v)));
    }

    /// The number of context slots.
    pub fn get_order(&self) -> (r: usize)
        ensures
            r == self.current_order(),
    {
        self.order
    }

    /// The number of observations recorded so far.
    pub fn observation_count(&self) -> (r: usize)
        requires
            self.wf(),
        ensures
            r == self.total(),
    {
        self.observed
    }

    /// Constructs a chain of order one with an empty start state.
    pub fn new() -> (r: Self)
        ensures
            r.wf(),
            r.current_order() == 1,
            r.total() == 0,
            forall|c: Seq<Option<T::V>>| r.has_context(c) <==> c == start_context::<T::V>(1),
            forall|c: Seq<Option<T::V>>, s: Option<T::V>| r.count(c, s) == 0,
    {
        let mut key: Vec<Slot<T>> = Vec::new();
        key.push(None);
        let d = Distribution::new();
        let ghost dg = d;
        let mut map: Vec<(Vec<Slot<T>>, Distribution<T>)> = Vec::new();
        map.push((key, d));
        let r = Chain { map, order: 1, observed: 0 };
        proof {
            assert(ctx_view(key@) =~= start_context::<T::V>(1));
            assert(r.map@.drop_last().len() == 0);
            assert(r.map@[0].1 == dg);
            assert(table_total(r.map@) == table_total(r.map@.drop_last()) + r.map@[0].1.total());
            assert(ctx_view(r.map@[0].0@) == start_context::<T::V>(1));
            assert(r.has_context(start_context(1)));
            assert forall|c: Seq<Option<T::V>>, s: Option<T::V>| r.count(c, s) == 0 by {
                assert(table_count(r.map@, c, s) == table_count(r.map@.drop_last(), c, s) + if ctx_view(
                    r.map@[0].0@,
                ) == c {
                    r.map@[0].1.count(s)
                } else {
                    0
                });
            }
        }
        r
    }

    /// Feeds the chain a sequence of tokens: with `order` boundary markers in front and one at
    /// the end, each window of `order + 1` slots records one observation of its last slot after
    /// its first `order` slots. An empty sequence changes nothing.
    pub fn feed(&mut self, tokens: Vec<T>) -> (r: &mut Chain<T>)
        requires
            old(self).wf(),
            tokens@.len() > 0 ==> old(self).total() + tokens@.len() + 1 <= usize::MAX,
            tokens@.len() > 0 ==> old(self).current_order() + tokens@.len() + 1 <= usize::MAX,
        ensures
            *final(self) == *final(r),
            r.wf(),
            r.current_order() == old(self).current_order(),
            tokens@.len() == 0 ==> r.total() == old(self).total(),
            tokens@.len() > 0 ==> r.total() == old(self).total() + tokens@.len() + 1,
            forall|c: Seq<Option<T::V>>, s: Option<T::V>|
                #[trigger] r.count(c, s) == old(self).count(c, s) + if tokens@.len() == 0 {
                    0
                } else {
                    observations(
                        old(self).current_order(),
                        token_views(tokens@),
                        c,
                        s,
                        tokens@.len() + 1,
                    )
                },
            forall|c: Seq<Option<T::V>>|
                #[trigger] r.has_context(c) == (old(self).has_context(c) || (tokens@.len()
                    > 0 && exists|i: int|
                    0 <= i <= tokens@.len() && window_context(
                        old(self).current_order(),
                        token_views(tokens@),
                        i,
                    ) == c)),
    {
        if tokens.len() == 0 {
            return self;
        }
        let ghost s0 = *self;
        let k = self.order;
        let n = tokens.len();
        let ghost tv = token_views(tokens@);
        let ghost sv = tv.map_values(|v: T::V| Some(v));
        let ghost pv = padded(k as nat, tv);
        let mut rest = tokens;
        let mut stack: Vec<T> = Vec::new();
        while rest.len() > 0
            invariant
                tv.len() == n,
                rest@.len() + stack@.len() == n,
                forall|i: int| 0 <= i < rest@.len() ==> (#[trigger] rest@[i])@ == tv[i],
                forall|i: int| 0 <= i < stack@.len() ==> (#[trigger] stack@[i])@ == tv[n - 1 - i],
            decreases rest@.len(),
        {
            let t = rest.pop().unwrap();
            stack.push(t);
        }
        let mut toks: Vec<Slot<T>> = Vec::new();
        let mut j: usize = 0;
        while j < k
            invariant
                j <= k,
                ctx_view(toks@) == start_context::<T::V>(j as nat),
            decreases k - j,
        {
            let ghost before = toks@;
            toks.push(None);
            proof {
                lemma_ctx_push(before, None);
                assert(ctx_view(toks@) =~= start_context::<T::V>((j + 1) as nat));
            }
            j += 1;
        }
        proof {
            assert(sv.take(0) =~= Seq::<Option<T::V>>::empty());
            assert(ctx_view(toks@) =~= start_context::<T::V>(k as nat) + sv.take(0));
        }
        while stack.len() > 0
            invariant
                tv.len() == n,
                sv == tv.map_values(|v: T::V| Some(v)),
                stack@.len() <= n,
                forall|i: int| 0 <= i < stack@.len() ==> (#[trigger] stack@[i])@ == tv[n - 1 - i],
                ctx_view(toks@) == start_context::<T::V>(k as nat) + sv.take(n - stack@.len()),
            decreases stack@.len(),
        {
            let t = stack.pop().unwrap();
            let ghost before = toks@;
            let ghost placed = n - stack@.len() - 1;
            let rc = Rc::new(t);
            toks.push(Some(rc));
            proof {
                lemma_ctx_push(before, Some(rc));
                assert(sv[placed] == Some(tv[placed]));
                assert(sv.take(placed + 1) =~= sv.take(placed).push(sv[placed]));
                assert(ctx_view(toks@) =~= start_context::<T::V>(k as nat) + sv.take(
                    n - stack@.len(),
                ));
            }
        }
        let ghost before = toks@;
        toks.push(None);
        proof {
            lemma_ctx_push(before, None);
            assert(sv.take(n as int) =~= sv);
            assert(ctx_view(toks@) =~= pv);
        }
        let mut i: usize = 0;
        while i <= n
            invariant
                self.table_wf(),
                k >= 1,
                forall|c: Seq<Option<T::V>>|
                    #[trigger] self.has_context(c) && c != start_context::<T::V>(c.len())
                        ==> !self.dead_end(c),
                forall|c: Seq<Option<T::V>>, t: T::V|
                    #[trigger] self.count(c, Some(t)) > 0 && c.len() >= 1 ==> !self.dead_end(
                        c.drop_first().push(Some(t)),
                    ) || (i <= n && c.drop_first().push(Some(t)) == window_context(
                        k as nat,
                        tv,
                        i as int,
                    )),
                self.order == k,
                k == s0.order,
                n == tv.len(),
                i <= n + 1,
                ctx_view(toks@) == pv,
                pv == padded(k as nat, tv),
                toks@.len() == k + n + 1,
                k + n + 1 <= usize::MAX,
                self.total() == s0.total() + i,
                s0.total() + n + 1 <= usize::MAX,
                forall|c: Seq<Option<T::V>>, s: Option<T::V>|
                    #[trigger] self.count(c, s) == s0.count(c, s) + observations(
                        k as nat,
                        tv,
                        c,
                        s,
                        i as nat,
                    ),
                forall|c: Seq<Option<T::V>>|
                    #[trigger] self.has_context(c) == (s0.has_context(c) || exists|w: int|
                        0 <= w < i && window_context(k as nat, tv, w) == c),
            decreases n + 1 - i,
        {
            let mut ctx: Vec<Slot<T>> = Vec::new();
            let mut j: usize = 0;
            while j < k
                invariant
                    j <= k,
                    i <= n,
                    ctx_view(toks@) == pv,
                    toks@.len() == k + n + 1,
                    k + n + 1 <= usize::MAX,
                    ctx_view(ctx@) == pv.subrange(i as int, i + j),
                decreases k - j,
            {
                let ghost before = ctx@;
                let x = slot_share(&toks[i + j]);
                ctx.push(x);
                proof {
                    lemma_ctx_push(before, x);
                    assert(pv[i + j] == ctx_view(toks@)[i + j]);
                    assert(ctx_view(ctx@) =~= pv.subrange(i as int, i + j + 1));
                }
                j += 1;
            }
            let succ = slot_share(&toks[i + k]);
            let ghost prev = *self;
            let ghost cv = ctx_view(ctx@);
            proof {
                assert(cv == window_context(k as nat, tv, i as int));
                assert(slot_view(succ) == window_successor(k as nat, tv, i as int));
            }
            self.observe(ctx, succ);
            proof {
                assert forall|c: Seq<Option<T::V>>, s: Option<T::V>|
                    #[trigger] self.count(c, s) == s0.count(c, s) + observations(
                        k as nat,
                        tv,
                        c,
                        s,
                        (i + 1) as nat,
                    ) by {
                    assert(observations(k as nat, tv, c, s, (i + 1) as nat) == observations(
                        k as nat,
                        tv,
                        c,
                        s,
                        i as nat,
                    ) + if window_context(k as nat, tv, i as int) == c && window_successor(
                        k as nat,
                        tv,
                        i as int,
                    ) == s {
                        1nat
                    } else {
                        0
                    });
                    assert(self.count(c, s) == prev.count(c, s) + if c == cv && s == slot_view(
                        succ,
                    ) {
                        1int
                    } else {
                        0
                    });
                }
                lemma_window_step(k as nat, tv, i as int);
                assert forall|x: Seq<Option<T::V>>| !prev.dead_end(x) implies !self.dead_end(x) by {
                    let w = choose|w: Option<T::V>| prev.count(x, w) != 0;
                    assert(self.count(x, w) >= prev.count(x, w));
                }
                assert(self.count(cv, slot_view(succ)) > 0);
                assert(!self.dead_end(cv));
                assert forall|c: Seq<Option<T::V>>|
                    #[trigger] self.has_context(c) && c != start_context::<T::V>(
                        c.len(),
                    ) implies !self.dead_end(c) by {
                    if c != cv {
                        assert(prev.has_context(c));
                        assert(!prev.dead_end(c));
                    }
                }
                assert forall|c: Seq<Option<T::V>>, t: T::V|
                    #[trigger] self.count(c, Some(t)) > 0 && c.len() >= 1 implies !self.dead_end(
                        c.drop_first().push(Some(t)),
                    ) || (i + 1 <= n && c.drop_first().push(Some(t)) == window_context(
                        k as nat,
                        tv,
                        i + 1,
                    )) by {
                    let nx = c.drop_first().push(Some(t));
                    if prev.count(c, Some(t)) > 0 {
                        if !prev.dead_end(nx) {
                        } else {
                            assert(nx == cv);
                        }
                    } else {
                        assert(c == cv && Some(t) == slot_view(succ));
                        assert(i < n);
                    }
                }
                assert forall|c: Seq<Option<T::V>>|
                    #[trigger] self.has_context(c) == (s0.has_context(c) || exists|w: int|
                        0 <= w < i + 1 && window_context(k as nat, tv, w) == c) by {
                    assert(self.has_context(c) == (prev.has_context(c) || c == cv));
                    if exists|w: int| 0 <= w < i + 1 && window_context(k as nat, tv, w) == c {
                        let w = choose|w: int| 0 <= w < i + 1 && window_context(k as nat, tv, w) == c;
                        if w < i {
                            assert(exists|w: int| 0 <= w < i && window_context(k as nat, tv, w) == c);
                        }
                    }
                }
            }
            i += 1;
        }
        self
    }

    /// Sets the number of context slots. The start window of the new order is added with an
    /// empty distribution, or emptied if present; all other data stays.
    pub fn order(&mut self, order: usize) -> (r: &mut Chain<T>)
        requires
            old(self).wf(),
            order > 0,
        ensures
            *final(self) == *final(r),
            r.wf(),
            r.current_order() == order,
            r.total() <= old(self).total(),
            forall|c: Seq<Option<T::V>>, s: Option<T::V>|
                #[trigger] r.count(c, s) == if c == start_context::<T::V>(order as nat) {
                    0
                } else {
                    old(self).count(c, s)
                },
            forall|c: Seq<Option<T::V>>|
                #[trigger] r.has_context(c) == (old(self).has_context(c) || c
                    == start_context::<T::V>(order as nat)),
    {
        let ghost s0 = *self;
        self.order = order;
        let key = boundary_window(order);
        let ghost m = self.map@;
        let ghost cv = ctx_view(key@);
        match self.find(&key) {
            Some(j) => {
                let (k0, d0) = self.map.remove(j);
                let d = Distribution::new();
                proof {
                    assert(m[j as int] == (k0, d0));
                    lemma_table_unique(m, j as int);
                }
                let dropped = d0.total_weight();
                self.observed = self.observed - dropped;
                let ghost dg = d;
                self.map.insert(j, (k0, d));
                proof {
                    assert(self.map@ =~= m.update(j as int, (k0, dg)));
                    lemma_table_update(m, j as int, k0, dg);
                    assert forall|c: Seq<Option<T::V>>, s: Option<T::V>|
                        #[trigger] self.count(c, s) == if c == cv {
                            0
                        } else {
                            table_count(m, c, s)
                        } by {
                        assert(table_count(self.map@, c, s) == table_count(m, c, s) + if ctx_view(
                            k0@,
                        ) == c {
                            dg.count(s) - d0.count(s)
                        } else {
                            0
                        });
                    }
                    assert forall|c: Seq<Option<T::V>>|
                        #[trigger] self.has_context(c) == ((exists|i: int|
                            0 <= i < m.len() && ctx_view(#[trigger] m[i].0@) == c) || c == cv) by {
                        if exists|i: int| 0 <= i < m.len() && ctx_view(#[trigger] m[i].0@) == c {
                            let i = choose|i: int| 0 <= i < m.len() && ctx_view(#[trigger] m[i].0@) == c;
                            assert(ctx_view(self.map@[i].0@) == c);
                        }
                        if c == cv {
                            assert(ctx_view(self.map@[j as int].0@) == c);
                        }
                        if self.has_context(c) {
                            let i = choose|i: int|
                                0 <= i < self.map@.len() && ctx_view(#[trigger] self.map@[i].0@) == c;
                            assert(ctx_view(m[i].0@) == c);
                        }
                    }
                    assert forall|a: int, b: int|
                        0 <= a < b < self.map@.len() implies ctx_view(#[trigger] self.map@[a].0@)
                        != ctx_view(#[trigger] self.map@[b].0@) by {
                        assert(ctx_view(self.map@[a].0@) == ctx_view(m[a].0@));
                        assert(ctx_view(self.map@[b].0@) == ctx_view(m[b].0@));
                    }
                }
            },
            None => {
                let d = Distribution::new();
                let ghost dg = d;
                self.map.push((key, d));
                proof {
                    let n = self.map@;
                    assert(n.drop_last() =~= m);
                    assert(n.last() == (key, dg));
                    assert(table_total(n) == table_total(m) + dg.total());
                    lemma_table_absent(m, cv);
                    assert forall|c: Seq<Option<T::V>>, s: Option<T::V>|
                        #[trigger] self.count(c, s) == if c == cv {
                            0
                        } else {
                            table_count(m, c, s)
                        } by {
                        assert(table_count(n, c, s) == table_count(m, c, s) + if ctx_view(key@)
                            == c {
                            dg.count(s)
                        } else {
                            0
                        });
                    }
                    assert forall|c: Seq<Option<T::V>>|
                        #[trigger] self.has_context(c) == ((exists|i: int|
                            0 <= i < m.len() && ctx_view(#[trigger] m[i].0@) == c) || c == cv) by {
                        if exists|i: int| 0 <= i < m.len() && ctx_view(#[trigger] m[i].0@) == c {
                            let i = choose|i: int| 0 <= i < m.len() && ctx_view(#[trigger] m[i].0@) == c;
                            assert(ctx_view(n[i].0@) == c);
                        }
                        if c == cv {
                            assert(ctx_view(n[m.len() as int].0@) == c);
                        }
                        if self.has_context(c) {
                            let i = choose|i: int| 0 <= i < n.len() && ctx_view(#[trigger] n[i].0@) == c;
                            if i < m.len() {
                                assert(n[i] == m[i]);
                            }
                        }
                    }
                    assert forall|a: int, b: int|
                        0 <= a < b < n.len() implies ctx_view(#[trigger] n[a].0@)
                        != ctx_view(#[trigger] n[b].0@) by {
                        if b == m.len() {
                            assert(n[a] == m[a]);
                        } else {
                            assert(n[a] == m[a]);
                            assert(n[b] == m[b]);
                        }
                    }
                    assert forall|i: int| 0 <= i < n.len() implies (#[trigger] n[i]).1.wf() by {
                        if i < m.len() {
                            assert(n[i] == m[i]);
                        }
                    }
                }
            },
        }
        proof {
            assert(self.has_context(start_context(self.order as nat)));
            let st = start_context::<T::V>(order as nat);
            assert forall|c: Seq<Option<T::V>>|
                #[trigger] self.has_context(c) && c != start_context::<T::V>(
                    c.len(),
                ) implies !self.dead_end(c) by {
                assert(c != st);
                assert(s0.has_context(c));
                assert(!s0.dead_end(c));
                let w = choose|w: Option<T::V>| s0.count(c, w) != 0;
                assert(self.count(c, w) == s0.count(c, w));
            }
            assert forall|c: Seq<Option<T::V>>, t: T::V|
                #[trigger] self.count(c, Some(t)) > 0 && c.len() >= 1 implies !self.dead_end(
                    c.drop_first().push(Some(t)),
                ) by {
                let nx = c.drop_first().push(Some(t));
                assert(c != st);
                assert(s0.count(c, Some(t)) > 0);
                assert(!s0.dead_end(nx));
                assert(nx[nx.len() - 1] == Some(t));
                if nx.len() == order {
                    assert(st[order - 1] == None::<T::V>);
                }
                assert(nx != st);
                let w = choose|w: Option<T::V>| s0.count(nx, w) != 0;
                assert(self.count(nx, w) == s0.count(nx, w));
            }
        }
        self
    }

    /// Whether nothing has been fed since the current order was set: the start window has no
    /// observations.
    pub fn is_empty(&self) -> (r: bool)
        requires
            self.wf(),
        ensures
            r == self.dead_end(start_context(self.current_order())),
    {
        let key = boundary_window(self.order);
        match self.find(&key) {
            Some(j) => {
                proof {
                    lemma_table_unique(self.map@, j as int);
                    self.map@[j as int].1.lemma_total();
                    assert forall|s: Option<T::V>|
                        self.count(ctx_view(key@), s) == self.map@[j as int].1.count(s) by {
                        assert(table_count(self.map@, ctx_view(self.map@[j as int].0@), s)
                            == self.map@[j as int].1.count(s));
                    }
                    let d = self.map@[j as int].1;
                    let st = start_context::<T::V>(self.order as nat);
                    if d.total() == 0 {
                        assert forall|s: Option<T::V>| #[trigger] self.count(st, s) == 0 by {
                            assert(self.count(ctx_view(key@), s) == d.count(s));
                        }
                    } else {
                        let s = choose|s: Option<T::V>| d.count(s) != 0;
                        assert(self.count(ctx_view(key@), s) == d.count(s));
                        assert(self.count(st, s) != 0);
                    }
                }
                self.map[j].1.is_empty()
            },
            None => {
                proof {
                    let w = choose|w: int|
                        0 <= w < self.map@.len() && ctx_view(#[trigger] self.map@[w].0@)
                            == start_context::<T::V>(self.order as nat);
                    assert(ctx_view(self.map@[w].0@) != ctx_view(key@));
                }
                true
            },
        }
    }

    /// Draws successors from the context window `curs` onwards, appending each drawn token to
    /// `ret`, until the boundary is drawn or the window has no observations.
    fn walk_from(&self, curs: Vec<Slot<T>>, ret: Vec<Rc<T>>) -> (r: Vec<Rc<T>>)
        requires
            self.wf(),
            curs@.len() >= 1,
            !self.dead_end(ctx_view(curs@)),
        ensures
            r@.len() >= ret@.len(),
            rc_views(r@).take(ret@.len() as int) == rc_views(ret@),
            r@.len() < usize::MAX ==> self.walk(
                ctx_view(curs@),
                rc_views(r@).skip(ret@.len() as int),
            ),
    {
        let ghost c0 = ctx_view(curs@);
        let ghost r0 = rc_views(ret@);
        let ghost n0 = ret@.len() as int;
        let mut curs = curs;
        let mut ret = ret;
        proof {
            assert(rc_views(ret@).take(n0) =~= r0);
            assert forall|out: Seq<T::V>| #[trigger]
                self.walk(ctx_view(curs@), out) implies self.walk(
                c0,
                rc_views(ret@).skip(n0) + out,
            ) by {
                assert(rc_views(ret@).skip(n0) + out =~= out);
            }
        }
        loop
            invariant
                self.wf(),
                curs@.len() >= 1,
                !self.dead_end(ctx_view(curs@)),
                ret@.len() >= n0,
                n0 == r0.len(),
                rc_views(ret@).take(n0) == r0,
                forall|out: Seq<T::V>| #[trigger]
                    self.walk(ctx_view(curs@), out) ==> self.walk(
                        c0,
                        rc_views(ret@).skip(n0) + out,
                    ),
            ensures
                ret@.len() >= n0,
                rc_views(ret@).take(n0) == r0,
                ret@.len() < usize::MAX ==> self.walk(c0, rc_views(ret@).skip(n0)),
            decreases usize::MAX - ret@.len(),
        {
            // A vector of shared pointers never holds usize::MAX elements; this bound only
            // gives the loop a measure that decreases.
            if ret.len() == usize::MAX {
                break ;
            }
            let ghost cv = ctx_view(curs@);
            let ghost rs = rc_views(ret@).skip(n0);
            proof {
                assert(rs + Seq::<T::V>::empty() =~= rs);
            }
            match self.find(&curs) {
                None => {
                    proof {
                        lemma_table_absent(self.map@, cv);
                        assert(self.dead_end(cv));
                    }
                    break ;
                },
                Some(j) => {
                    let d = &self.map[j].1;
                    proof {
                        lemma_table_unique(self.map@, j as int);
                        d.lemma_total();
                    }
                    if d.is_empty() {
                        proof {
                            assert forall|s: Option<T::V>| #[trigger] self.count(cv, s) == 0 by {
                                assert(table_count(self.map@, ctx_view(self.map@[j as int].0@), s)
                                    == d.count(s));
                            }
                        }
                        break ;
                    }
                    let next = d.sample();
                    match next {
                        None => {
                            proof {
                                assert(self.walk(cv, Seq::<T::V>::empty()));
                            }
                            break ;
                        },
                        Some(t) => {
                            let mut nc: Vec<Slot<T>> = Vec::new();
                            let mut i: usize = 1;
                            while i < curs.len()
                                invariant
                                    1 <= i <= curs@.len(),
                                    ctx_view(nc@) == ctx_view(curs@).subrange(1, i as int),
                                decreases curs@.len() - i,
                            {
                                let ghost before = nc@;
                                let x = slot_share(&curs[i]);
                                nc.push(x);
                                proof {
                                    lemma_ctx_push(before, x);
                                    assert(ctx_view(nc@) =~= ctx_view(curs@).subrange(
                                        1,
                                        i + 1,
                                    ));
                                }
                                i += 1;
                            }
                            let ghost before = nc@;
                            let x = Some(Rc::clone(&t));
                            nc.push(x);
                            let ghost rv = rc_views(ret@);
                            ret.push(t);
                            proof {
                                lemma_ctx_push(before, x);
                                let tv = t@;
                                assert(ctx_view(nc@) =~= cv.drop_first().push(Some(tv)));
                                assert(rc_views(ret@) =~= rv.push(tv));
                                assert(rc_views(ret@).take(n0) =~= r0);
                                assert(self.count(cv, Some(tv)) > 0);
                                assert(!self.dead_end(ctx_view(nc@)));
                                assert forall|out: Seq<T::V>| #[trigger]
                                    self.walk(ctx_view(nc@), out) implies self.walk(
                                    c0,
                                    rc_views(ret@).skip(n0) + out,
                                ) by {
                                    let o2 = seq![tv] + out;
                                    assert(o2.drop_first() =~= out);
                                    assert(o2[0] == tv);
                                    assert(self.walk(cv, o2));
                                    assert(rc_views(ret@).skip(n0) + out =~= rs + o2);
                                }
                            }
                            curs = nc;
                        },
                    }
                },
            }
        }
        ret
    }

    /// Generates a sequence from the start window: it ends when the boundary is drawn. The
    /// chain must have been fed since its order was set (see `is_empty`).
    pub fn generate(&self) -> (r: Vec<Rc<T>>)
        requires
            self.wf(),
            !self.dead_end(start_context(self.current_order())),
        ensures
            r@.len() < usize::MAX ==> self.walk(start_context(self.current_order()), rc_views(r@)),
    {
        let key = boundary_window(self.order);
        let r = self.walk_from(key, Vec::new());
        proof {
            assert(rc_views(r@).skip(0) =~= rc_views(r@));
        }
        r
    }

    /// Generates a sequence that starts with `token`, from the window of `order` copies of it.
    /// Returns an empty sequence when that window was never observed.
    pub fn generate_from_token(&self, token: T) -> (r: Vec<Rc<T>>)
        requires
            self.wf(),
        ensures
            !self.has_context(repeated_context(self.current_order(), token@)) ==> r@.len() == 0,
            self.has_context(repeated_context(self.current_order(), token@)) ==> {
                &&& r@.len() >= 1
                &&& r@[0]@ == token@
                &&& r@.len() < usize::MAX ==> self.walk(
                    repeated_context(self.current_order(), token@),
                    rc_views(r@).drop_first(),
                )
            },
    {
        let ghost tv = token@;
        let t = Rc::new(token);
        let key = repeated_window(&t, self.order);
        match self.find(&key) {
            None => {
                proof {
                    if self.has_context(repeated_context(self.current_order(), tv)) {
                        let w = choose|w: int|
                            0 <= w < self.map@.len() && ctx_view(#[trigger] self.map@[w].0@)
                                == repeated_context(self.current_order(), tv);
                        assert(ctx_view(self.map@[w].0@) != ctx_view(key@));
                    }
                }
                Vec::new()
            },
            Some(j) => {
                proof {
                    let rc = ctx_view(key@);
                    assert(self.has_context(rc)) by {
                        assert(ctx_view(self.map@[j as int].0@) == rc);
                    }
                    assert(rc[0] != start_context::<T::V>(rc.len())[0]);
                    assert(!self.dead_end(rc));
                }
                let mut ret: Vec<Rc<T>> = Vec::new();
                ret.push(t);
                let r = self.walk_from(key, ret);
                proof {
                    assert(rc_views(r@).take(1)[0] == rc_views(ret@)[0]);
                    assert(rc_views(r@).skip(1) =~= rc_views(r@).drop_first());
                }
                r
            },
        }
    }

    /// An iterator that generates sequences without end.
    pub fn iter(&self) -> (r: InfiniteChainIterator<'_, T>)
        ensures
            r.source() == *self,
    {
        InfiniteChainIterator { chain: self }
    }

    /// An iterator that generates `size` sequences.
    pub fn iter_for(&self, size: usize) -> (r: SizedChainIterator<'_, T>)
        ensures
            r.source() == *self,
            r.remaining() == size,
    {
        SizedChainIterator { chain: self, size }
    }

    /// Records one observation of `succ` after the context window `ctx`.
    fn observe(&mut self, ctx: Vec<Slot<T>>, succ: Slot<T>)
        requires
            old(self).table_wf(),
            old(self).total() < usize::MAX,
        ensures
            final(self).table_wf(),
            final(self).order == old(self).order,
            final(self).total() == old(self).total() + 1,
            forall|c: Seq<Option<T::V>>, s: Option<T::V>|
                #[trigger] final(self).count(c, s) == old(self).count(c, s) + if c == ctx_view(ctx@)
                    && s == slot_view(succ) {
                    1int
                } else {
                    0
                },
            forall|c: Seq<Option<T::V>>|
                #[trigger] final(self).has_context(c) == (old(self).has_context(c) || c == ctx_view(
                    ctx@,
                )),
    {
        let ghost m = self.map@;
        let ghost cv = ctx_view(ctx@);
        match self.find(&ctx) {
            Some(j) => {
                let (key, mut d) = self.map.remove(j);
                proof {
                    assert(m[j as int] == (key, d));
                    lemma_table_unique(m, j as int);
                    d.lemma_total();
                }
                let ghost d0 = d;
                d.add(succ);
                self.map.insert(j, (key, d));
                self.observed = self.observed + 1;
                proof {
                    assert(self.map@ =~= m.update(j as int, (key, d)));
                    lemma_table_update(m, j as int, key, d);
                    assert forall|c: Seq<Option<T::V>>, s: Option<T::V>|
                        #[trigger] self.count(c, s) == table_count(m, c, s) + if c == cv && s
                            == slot_view(succ) {
                            1int
                        } else {
                            0
                        } by {
                        assert(table_count(self.map@, c, s) == table_count(m, c, s) + if ctx_view(
                            key@,
                        ) == c {
                            d.count(s) - d0.count(s)
                        } else {
                            0
                        });
                    }
                    assert forall|c: Seq<Option<T::V>>|
                        #[trigger] self.has_context(c) == ((exists|i: int|
                            0 <= i < m.len() && ctx_view(#[trigger] m[i].0@) == c) || c == cv) by {
                        if exists|i: int| 0 <= i < m.len() && ctx_view(#[trigger] m[i].0@) == c {
                            let i = choose|i: int| 0 <= i < m.len() && ctx_view(#[trigger] m[i].0@) == c;
                            assert(ctx_view(self.map@[i].0@) == c);
                        }
                        if c == cv {
                            assert(ctx_view(self.map@[j as int].0@) == c);
                        }
                        if self.has_context(c) {
                            let i = choose|i: int|
                                0 <= i < self.map@.len() && ctx_view(#[trigger] self.map@[i].0@) == c;
                            assert(ctx_view(m[i].0@) == c);
                        }
                    }
                    assert forall|a: int, b: int|
                        0 <= a < b < self.map@.len() implies ctx_view(#[trigger] self.map@[a].0@)
                        != ctx_view(#[trigger] self.map@[b].0@) by {
                        assert(ctx_view(self.map@[a].0@) == ctx_view(m[a].0@));
                        assert(ctx_view(self.map@[b].0@) == ctx_view(m[b].0@));
                    }
                    assert(self.has_context(start_context(self.order as nat)));
                }
            },
            None => {
                let mut d = Distribution::new();
                d.add(succ);
                let ghost dg = d;
                self.map.push((ctx, d));
                self.observed = self.observed + 1;
                proof {
                    let n = self.map@;
                    assert(n.drop_last() =~= m);
                    assert(n.last() == (ctx, dg));
                    assert(table_total(n) == table_total(m) + dg.total());
                    assert forall|c: Seq<Option<T::V>>, s: Option<T::V>|
                        #[trigger] self.count(c, s) == table_count(m, c, s) + if c == cv && s
                            == slot_view(succ) {
                            1int
                        } else {
                            0
                        } by {
                        assert(table_count(n, c, s) == table_count(m, c, s) + if ctx_view(
                            ctx@,
                        ) == c {
                            dg.count(s)
                        } else {
                            0
                        });
                    }
                    assert forall|c: Seq<Option<T::V>>|
                        #[trigger] self.has_context(c) == ((exists|i: int|
                            0 <= i < m.len() && ctx_view(#[trigger] m[i].0@) == c) || c == cv) by {
                        if exists|i: int| 0 <= i < m.len() && ctx_view(#[trigger] m[i].0@) == c {
                            let i = choose|i: int| 0 <= i < m.len() && ctx_view(#[trigger] m[i].0@) == c;
                            assert(ctx_view(n[i].0@) == c);
                        }
                        if c == cv {
                            assert(ctx_view(n[m.len() as int].0@) == c);
                        }
                        if self.has_context(c) {
                            let i = choose|i: int| 0 <= i < n.len() && ctx_view(#[trigger] n[i].0@) == c;
                            if i < m.len() {
                                assert(n[i] == m[i]);
                            }
                        }
                    }
                    assert forall|a: int, b: int|
                        0 <= a < b < n.len() implies ctx_view(#[trigger] n[a].0@)
                        != ctx_view(#[trigger] n[b].0@) by {
                        if b == m.len() {
                            assert(n[a] == m[a]);
                        } else {
                            assert(n[a] == m[a]);
                            assert(n[b] == m[b]);
                        }
                    }
                    assert forall|i: int| 0 <= i < n.len() implies (#[trigger] n[i]).1.wf() by {
                        if i < m.len() {
                            assert(n[i] == m[i]);
                        }
                    }
                    assert(self.has_context(start_context(self.order as nat)));
                }
            },
        }
    }

    /// Position of the entry whose context has the value of `c`, if any.
    fn find(&self, c: &Vec<Slot<T>>) -> (r: Option<usize>)
        ensures
            match r {
                Some(j) => j < self.map@.len() && ctx_view(self.map@[j as int].0@) == ctx_view(c@),
                None => forall|i: int|
                    0 <= i < self.map@.len() ==> ctx_view(#[trigger] self.map@[i].0@) != ctx_view(
                        c@,
                    ),
            },
    {
        let mut i: usize = 0;
        while i < self.map.len()
            invariant
                i <= self.map@.len(),
                forall|k: int|
                    0 <= k < i ==> ctx_view(#[trigger] self.map@[k].0@) != ctx_view(c@),
            decreases self.map@.len() - i,
        {
            if same_window(&self.map[i].0, c) {
                return Some(i);
            }
            i += 1;
        }
        None
    }
}

/// Generates sequences from a chain without end.
pub struct InfiniteChainIterator<'a, T> {
    chain: &'a Chain<T>,
}

impl<'a, T: Chainable> InfiniteChainIterator<'a, T> {
    /// The chain the sequences come from.
    pub closed spec fn source(&self) -> Chain<T> {
        *self.chain
    }

    /// Generates the next sequence; there always is one.
    pub fn next(&mut self) -> (r: Option<Vec<Rc<T>>>)
        requires
            old(self).source().wf(),
            !old(self).source().dead_end(start_context(old(self).source().current_order())),
        ensures
            final(self).source() == old(self).source(),
            r is Some,
            r.unwrap()@.len() < usize::MAX ==> old(self).source().walk(
                start_context(old(self).source().current_order()),
                rc_views(r.unwrap()@),
            ),
    {
        Some(self.chain.generate())
    }

    /// No upper bound: the iterator never ends.
    pub fn size_hint(&self) -> (r: (usize, Option<usize>))
        ensures
            r == (0usize, None::<usize>),
    {
        (0, None)
    }
}

/// Generates a fixed number of sequences from a chain.
pub struct SizedChainIterator<'a, T> {
    chain: &'a Chain<T>,
    size: usize,
}

impl<'a, T: Chainable> SizedChainIterator<'a, T> {
    /// The chain the sequences come from.
    pub closed spec fn source(&self) -> Chain<T> {
        *self.chain
    }

    /// How many sequences are still to come.
    pub closed spec fn remaining(&self) -> nat {
        self.size as nat
    }

    /// Generates the next sequence while any remain.
    pub fn next(&mut self) -> (r: Option<Vec<Rc<T>>>)
        requires
            old(self).source().wf(),
            old(self).remaining() > 0 ==> !old(self).source().dead_end(
                start_context(old(self).source().current_order()),
            ),
        ensures
            final(self).source() == old(self).source(),
            old(self).remaining() == 0 ==> r is None && final(self).remaining() == 0,
            old(self).remaining() > 0 ==> {
                &&& r is Some
                &&& final(self).remaining() == old(self).remaining() - 1
                &&& r.unwrap()@.len() < usize::MAX ==> old(self).source().walk(
                    start_context(old(self).source().current_order()),
                    rc_views(r.unwrap()@),
                )
            },
    {
        if self.size > 0 {
            self.size = self.size - 1;
            Some(self.chain.generate())
        } else {
            None
        }
    }

    /// The exact number of sequences still to come, as both bounds.
    pub fn size_hint(&self) -> (r: (usize, Option<usize>))
        ensures
            r.0 == self.remaining(),
            r.1 == Some(r.0),
    {
        (self.size, Some(self.size))
    }
}

/// The window of `k` boundary markers.
fn boundary_window<T: Chainable>(k: usize) -> (r: Vec<Slot<T>>)
    ensures
        r@.len() == k,
        ctx_view(r@) == start_context::<T::V>(k as nat),
{
    let mut r: Vec<Slot<T>> = Vec::new();
    let mut j: usize = 0;
    while j < k
        invariant
            j <= k,
            r@.len() == j,
            ctx_view(r@) == start_context::<T::V>(j as nat),
        decreases k - j,
    {
        let ghost before = r@;
        r.push(None);
        proof {
            lemma_ctx_push(before, None);
            assert(ctx_view(r@) =~= start_context::<T::V>((j + 1) as nat));
        }
        j += 1;
    }
    r
}

/// The window of `k` copies of the shared token `t`.
fn repeated_window<T: Chainable>(t: &Rc<T>, k: usize) -> (r: Vec<Slot<T>>)
    ensures
        r@.len() == k,
        ctx_view(r@) == repeated_context(k as nat, t@),
{
    let mut r: Vec<Slot<T>> = Vec::new();
    let mut j: usize = 0;
    while j < k
        invariant
            j <= k,
            r@.len() == j,
            ctx_view(r@) == repeated_context(j as nat, t@),
        decreases k - j,
    {
        let ghost before = r@;
        let x = Some(Rc::clone(t));
        r.push(x);
        proof {
            lemma_ctx_push(before, x);
            assert(ctx_view(r@) =~= repeated_context((j + 1) as nat, t@));
        }
        j += 1;
    }
    r
}

/// Compares two context windows slot by slot.
fn same_window<T: Chainable>(a: &Vec<Slot<T>>, b: &Vec<Slot<T>>) -> (r: bool)
    ensures
        r == (ctx_view(a@) == ctx_view(b@)),
{
    if a.len() != b.len() {
        proof {
            assert(ctx_view(a@).len() != ctx_view(b@).len());
        }
        return false;
    }
    let mut i: usize = 0;
    while i < a.len()
        invariant
            a@.len() == b@.len(),
            i <= a@.len(),
            forall|k: int| 0 <= k < i ==> slot_view(#[trigger] a@[k]) == slot_view(b@[k]),
        decreases a@.len() - i,
    {
        if !slot_eq(&a[i], &b[i]) {
            proof {
                assert(ctx_view(a@)[i as int] != ctx_view(b@)[i as int]);
            }
            return false;
        }
        i += 1;
    }
    proof {
        assert(ctx_view(a@) =~= ctx_view(b@));
    }
    true
}

} // verus!
