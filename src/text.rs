use crate::chain::{
    rc_views, repeated_context, start_context, token_views, Chain, InfiniteChainIterator,
    SizedChainIterator,
};
use std::rc::Rc;
use vstd::prelude::*;

verus! {

/// The words of `s` split at each space: `n` spaces give `n + 1` words, some maybe empty.
pub open spec fn words_of(s: Seq<char>) -> Seq<Seq<char>>
    decreases s.len(),
{
    if s.len() == 0 {
        seq![Seq::<char>::empty()]
    } else {
        let w = words_of(s.drop_last());
        if s.last() == ' ' {
            w.push(Seq::<char>::empty())
        } else {
            w.update(w.len() - 1, w.last().push(s.last()))
        }
    }
}

/// The words joined with one space between neighbours.
pub open spec fn join_words(w: Seq<Seq<char>>) -> Seq<char>
    decreases w.len(),
{
    if w.len() == 0 {
        Seq::<char>::empty()
    } else if w.len() == 1 {
        w[0]
    } else {
        join_words(w.drop_last()) + seq![' '] + w.last()
    }
}

proof fn lemma_words_len(s: Seq<char>)
    ensures
        1 <= words_of(s).len() <= s.len() + 1,
    decreases s.len(),
{
    if s.len() > 0 {
        lemma_words_len(s.drop_last());
    }
}

/// Joining the words of a line with single spaces gives the line back.
pub proof fn lemma_words_round_trip(s: Seq<char>)
    ensures
        join_words(words_of(s)) == s,
    decreases s.len(),
{
    if s.len() > 0 {
        let p = s.drop_last();
        let w = words_of(p);
        lemma_words_round_trip(p);
        lemma_words_len(p);
        let c = s.last();
        if c == ' ' {
            let u = w.push(Seq::<char>::empty());
            assert(u.drop_last() =~= w);
            assert(join_words(u) =~= p + seq![' ']);
        } else {
            let u = w.update(w.len() - 1, w.last().push(c));
            if w.len() == 1 {
                assert(join_words(u) =~= p.push(c));
            } else {
                assert(u.drop_last() =~= w.drop_last());
                assert(join_words(u) =~= p.push(c));
            }
        }
        assert(p.push(c) =~= s);
    }
}

/// Splits a line at each space character.
pub fn split_words(s: &str) -> (r: Vec<String>)
    ensures
        token_views(r@) == words_of(s@),
{
    let n = s.unicode_len();
    let mut r: Vec<String> = Vec::new();
    let mut start: usize = 0;
    let mut i: usize = 0;
    proof {
        assert(s@.take(0) =~= Seq::<char>::empty());
        assert(token_views(r@).push(s@.subrange(0, 0)) =~= words_of(s@.take(0)));
    }
    while i < n
        invariant
            n == s@.len(),
            start <= i <= n,
            token_views(r@).push(s@.subrange(start as int, i as int)) == words_of(s@.take(i as int)),
        decreases n - i,
    {
        let c = s.get_char(i);
        let ghost w = words_of(s@.take(i as int));
        let ghost rv = token_views(r@);
        proof {
            assert(s@.take(i + 1).drop_last() =~= s@.take(i as int));
            assert(s@.take(i + 1).last() == c);
            lemma_words_len(s@.take(i as int));
        }
        if c == ' ' {
            let word = s.substring_char(start, i).to_owned();
            proof {
                assert(word@ == s@.subrange(start as int, i as int));
                assert(w == rv.push(word@));
            }
            r.push(word);
            start = i + 1;
            proof {
                assert(token_views(r@) =~= rv.push(word@));
                assert(s@.subrange(start as int, i + 1) =~= Seq::<char>::empty());
                assert(words_of(s@.take(i + 1)) == w.push(Seq::<char>::empty()));
                assert(token_views(r@).push(s@.subrange(start as int, i + 1)) =~= w.push(
                    Seq::<char>::empty(),
                ));
            }
        } else {
            proof {
                assert(s@.subrange(start as int, i as int).push(c) =~= s@.subrange(
                    start as int,
                    i + 1,
                ));
                assert(token_views(r@).push(s@.subrange(start as int, i + 1)) =~= w.update(
                    w.len() - 1,
                    w.last().push(c),
                ));
            }
        }
        i += 1;
    }
    let word = s.substring_char(start, n).to_owned();
    let ghost rv = token_views(r@);
    r.push(word);
    proof {
        assert(s@.take(n as int) =~= s@);
        assert(token_views(r@) =~= rv.push(word@));
    }
    r
}

/// The characters with the Unicode White_Space property.
pub open spec fn white_space(c: char) -> bool {
    ('\u{9}' <= c <= '\u{d}') || c == ' ' || c == '\u{85}' || c == '\u{a0}' || c == '\u{1680}'
        || ('\u{2000}' <= c <= '\u{200a}') || c == '\u{2028}' || c == '\u{2029}' || c
        == '\u{202f}' || c == '\u{205f}' || c == '\u{3000}'
}

/// Relies on char::is_whitespace: true exactly for the characters with the Unicode
/// White_Space property.
#[verifier::external_body]
fn is_white(c: char) -> (r: bool)
    ensures
        r == white_space(c),
{
    c.is_whitespace()
}

/// The maximal runs of non-white-space characters of `s`, in order.
pub open spec fn fields_of(s: Seq<char>) -> Seq<Seq<char>>
    decreases s.len(),
{
    if s.len() == 0 {
        Seq::<Seq<char>>::empty()
    } else {
        let f = fields_of(s.drop_last());
        let c = s.last();
        if white_space(c) {
            f
        } else if s.len() >= 2 && !white_space(s[s.len() - 2]) {
            f.update(f.len() - 1, f.last().push(c))
        } else {
            f.push(seq![c])
        }
    }
}

proof fn lemma_fields_len(s: Seq<char>)
    ensures
        fields_of(s).len() <= s.len(),
        s.len() > 0 && !white_space(s.last()) ==> fields_of(s).len() >= 1,
    decreases s.len(),
{
    if s.len() > 0 {
        lemma_fields_len(s.drop_last());
        if s.len() >= 2 {
            assert(s.drop_last().last() == s[s.len() - 2]);
        }
    }
}

/// Splits a line into its white-space separated words, dropping empty ones.
pub fn split_fields(s: &str) -> (r: Vec<String>)
    ensures
        token_views(r@) == fields_of(s@),
{
    let n = s.unicode_len();
    let mut r: Vec<String> = Vec::new();
    let mut start: usize = 0;
    let mut in_field = false;
    let mut i: usize = 0;
    proof {
        assert(s@.take(0) =~= Seq::<char>::empty());
        assert(token_views(r@) =~= fields_of(s@.take(0)));
    }
    while i < n
        invariant
            n == s@.len(),
            start <= i <= n,
            in_field ==> start < i && !white_space(s@[i - 1]) && token_views(r@).push(
                s@.subrange(start as int, i as int),
            ) == fields_of(s@.take(i as int)),
            !in_field ==> (i == 0 || white_space(s@[i - 1])) && token_views(r@) == fields_of(
                s@.take(i as int),
            ),
        decreases n - i,
    {
        let c = s.get_char(i);
        let w = is_white(c);
        let ghost f = fields_of(s@.take(i as int));
        let ghost rv = token_views(r@);
        proof {
            let t = s@.take(i + 1);
            assert(t.drop_last() =~= s@.take(i as int));
            assert(t.last() == c);
            if i >= 1 {
                assert(t[t.len() - 2] == s@[i - 1]);
            }
            lemma_fields_len(s@.take(i as int));
        }
        if w {
            if in_field {
                let word = s.substring_char(start, i).to_owned();
                r.push(word);
                proof {
                    assert(token_views(r@) =~= rv.push(word@));
                }
                in_field = false;
            }
        } else {
            if in_field {
                proof {
                    assert(s@.subrange(start as int, i as int).push(c) =~= s@.subrange(
                        start as int,
                        i + 1,
                    ));
                    assert(token_views(r@).push(s@.subrange(start as int, i + 1)) =~= f.update(
                        f.len() - 1,
                        f.last().push(c),
                    ));
                }
            } else {
                start = i;
                in_field = true;
                proof {
                    assert(s@.subrange(start as int, i + 1) =~= seq![c]);
                    assert(token_views(r@).push(s@.subrange(start as int, i + 1)) =~= f.push(
                        seq![c],
                    ));
                }
            }
        }
        i += 1;
    }
    proof {
        assert(s@.take(n as int) =~= s@);
    }
    if in_field {
        let word = s.substring_char(start, n).to_owned();
        let ghost rv = token_views(r@);
        r.push(word);
        proof {
            assert(token_views(r@) =~= rv.push(word@));
        }
    }
    r
}

impl Chain<String> {
    /// Joins words with single spaces; no words give the empty string.
    pub fn vec_to_string(vec: Vec<Rc<String>>) -> (r: String)
        ensures
            r@ == join_words(rc_views(vec@)),
    {
        let mut ret = String::new();
        let mut i: usize = 0;
        proof {
            assert(rc_views(vec@).take(0).len() == 0);
        }
        while i < vec.len()
            invariant
                i <= vec@.len(),
                ret@ == join_words(rc_views(vec@).take(i as int)),
            decreases vec@.len() - i,
        {
            let ghost w = rc_views(vec@).take(i + 1);
            proof {
                assert(w.drop_last() =~= rc_views(vec@).take(i as int));
                reveal_strlit(" ");
            }
            if i > 0 {
                ret.append(" ");
            }
            let word: &String = &*vec[i];
            ret.append(word.as_str());
            proof {
                if i == 0 {
                    assert(ret@ =~= w[0]);
                } else {
                    assert(ret@ =~= join_words(w.drop_last()) + seq![' '] + w.last());
                }
            }
            i += 1;
        }
        proof {
            assert(rc_views(vec@).take(i as int) =~= rc_views(vec@));
        }
        ret
    }

    /// Feeds one line of text, split at each space.
    pub fn feed_str(&mut self, string: &str) -> (r: &mut Chain<String>)
        requires
            old(self).wf(),
            old(self).total() + string@.len() + 2 <= usize::MAX,
            old(self).current_order() + string@.len() + 2 <= usize::MAX,
        ensures
            *final(self) == *final(r),
            r.wf(),
            r.current_order() == old(self).current_order(),
            r.total() == old(self).total() + words_of(string@).len() + 1,
            forall|c: Seq<Option<Seq<char>>>, s: Option<Seq<char>>|
                #[trigger] r.count(c, s) == old(self).count(c, s) + crate::chain::observations(
                    old(self).current_order(),
                    words_of(string@),
                    c,
                    s,
                    words_of(string@).len() + 1,
                ),
            forall|c: Seq<Option<Seq<char>>>|
                #[trigger] r.has_context(c) == (old(self).has_context(c) || exists|i: int|
                    0 <= i <= words_of(string@).len() && crate::chain::window_context(
                        old(self).current_order(),
                        words_of(string@),
                        i,
                    ) == c),
    {
        let words = split_words(string);
        proof {
            lemma_words_len(string@);
            assert(words@.len() == token_views(words@).len());
        }
        self.feed(words)
    }

    /// Feeds one line of a text: its white-space separated words, empty ones dropped. A line
    /// without words changes nothing.
    pub fn feed_line(&mut self, line: &str)
        requires
            old(self).wf(),
            old(self).total() + line@.len() + 1 <= usize::MAX,
            old(self).current_order() + line@.len() + 1 <= usize::MAX,
        ensures
            final(self).wf(),
            final(self).current_order() == old(self).current_order(),
            fields_of(line@).len() == 0 ==> final(self).total() == old(self).total(),
            fields_of(line@).len() > 0 ==> final(self).total() == old(self).total() + fields_of(
                line@,
            ).len() + 1,
            forall|c: Seq<Option<Seq<char>>>, s: Option<Seq<char>>|
                #[trigger] final(self).count(c, s) == old(self).count(c, s) + if fields_of(
                    line@,
                ).len() == 0 {
                    0
                } else {
                    crate::chain::observations(
                        old(self).current_order(),
                        fields_of(line@),
                        c,
                        s,
                        fields_of(line@).len() + 1,
                    )
                },
            forall|c: Seq<Option<Seq<char>>>|
                #[trigger] final(self).has_context(c) == (old(self).has_context(c) || (fields_of(
                    line@,
                ).len() > 0 && exists|i: int|
                    0 <= i <= fields_of(line@).len() && crate::chain::window_context(
                        old(self).current_order(),
                        fields_of(line@),
                        i,
                    ) == c)),
    {
        let words = split_fields(line);
        proof {
            lemma_fields_len(line@);
            assert(words@.len() == token_views(words@).len());
        }
        self.feed(words);
    }

    /// Generates a line of text from the start window.
    pub fn generate_str(&self) -> (r: String)
        requires
            self.wf(),
            !self.dead_end(start_context(self.current_order())),
        ensures
            exists|w: Seq<Seq<char>>|
                #![trigger join_words(w)]
                {
                    &&& r@ == join_words(w)
                    &&& w.len() < usize::MAX ==> self.walk(start_context(self.current_order()), w)
                },
    {
        let v = self.generate();
        let ghost w = rc_views(v@);
        let r = Chain::vec_to_string(v);
        proof {
            assert(r@ == join_words(w));
        }
        r
    }

    /// Generates a line of text that starts with the word `string`; the empty string when
    /// the window of `order` copies of that word was never observed.
    pub fn generate_str_from_token(&self, string: &str) -> (r: String)
        requires
            self.wf(),
        ensures
            !self.has_context(repeated_context(self.current_order(), string@)) ==> r@.len() == 0,
            self.has_context(repeated_context(self.current_order(), string@)) ==> exists|
                w: Seq<Seq<char>>,
            |
                #![trigger join_words(w)]
                {
                    &&& w.len() >= 1
                    &&& w[0] == string@
                    &&& r@ == join_words(w)
                    &&& w.len() < usize::MAX ==> self.walk(
                        repeated_context(self.current_order(), string@),
                        w.drop_first(),
                    )
                },
    {
        let v = self.generate_from_token(string.to_owned());
        let ghost w = rc_views(v@);
        let r = Chain::vec_to_string(v);
        proof {
            assert(r@ == join_words(w));
            if w.len() == 0 {
                assert(r@ =~= Seq::<char>::empty());
            }
        }
        r
    }

    /// An iterator that generates lines of text without end.
    pub fn str_iter(&self) -> (r: InfiniteChainStringIterator<'_>)
        ensures
            r.source() == *self,
    {
        InfiniteChainStringIterator { inner: self.iter() }
    }

    /// An iterator that generates `size` lines of text.
    pub fn str_iter_for(&self, size: usize) -> (r: SizedChainStringIterator<'_>)
        ensures
            r.source() == *self,
            r.remaining() == size,
    {
        SizedChainStringIterator { inner: self.iter_for(size) }
    }
}

/// Generates lines of text from a chain without end.
pub struct InfiniteChainStringIterator<'a> {
    inner: InfiniteChainIterator<'a, String>,
}

impl<'a> InfiniteChainStringIterator<'a> {
    /// The chain the lines come from.
    pub closed spec fn source(&self) -> Chain<String> {
        self.inner.source()
    }

    /// Generates the next line; there always is one.
    pub fn next(&mut self) -> (r: Option<String>)
        requires
            old(self).source().wf(),
            !old(self).source().dead_end(start_context(old(self).source().current_order())),
        ensures
            final(self).source() == old(self).source(),
            r is Some,
            exists|w: Seq<Seq<char>>|
                #![trigger join_words(w)]
                {
                    &&& r.unwrap()@ == join_words(w)
                    &&& w.len() < usize::MAX ==> old(self).source().walk(
                        start_context(old(self).source().current_order()),
                        w,
                    )
                },
    {
        let v = self.inner.next().unwrap();
        let ghost w = rc_views(v@);
        let r = Chain::vec_to_string(v);
        proof {
            assert(r@ == join_words(w));
        }
        Some(r)
    }

    /// No upper bound: the iterator never ends.
    pub fn size_hint(&self) -> (r: (usize, Option<usize>))
        ensures
            r == (0usize, None::<usize>),
    {
        self.inner.size_hint()
    }
}

/// Generates a fixed number of lines of text from a chain.
pub struct SizedChainStringIterator<'a> {
    inner: SizedChainIterator<'a, String>,
}

impl<'a> SizedChainStringIterator<'a> {
    /// The chain the lines come from.
    pub closed spec fn source(&self) -> Chain<String> {
        self.inner.source()
    }

    /// How many lines are still to come.
    pub closed spec fn remaining(&self) -> nat {
        self.inner.remaining()
    }

    /// Generates the next line while any remain.
    pub fn next(&mut self) -> (r: Option<String>)
        requires
            old(self).source().wf(),
            old(self).remaining() > 0 ==> !old(self).source().dead_end(
                start_context(old(self).source().current_order()),
            ),
        ensures
            final(self).source() == old(self).source(),
            old(self).remaining() == 0 ==> r is None && final(self).remaining() == 0,
            old(self).remaining() > 0 ==> {
                &&& r is Some
                &&& final(self).remaining() == old(self).remaining() - 1
                &&& exists|w: Seq<Seq<char>>|
                    #![trigger join_words(w)]
                    {
                        &&& r.unwrap()@ == join_words(w)
                        &&& w.len() < usize::MAX ==> old(self).source().walk(
                            start_context(old(self).source().current_order()),
                            w,
                        )
                    }
            },
    {
        match self.inner.next() {
            Some(v) => {
                let ghost w = rc_views(v@);
                let r = Chain::vec_to_string(v);
                proof {
                    assert(r@ == join_words(w));
                }
                Some(r)
            },
            None => None,
        }
    }

    /// The exact number of lines still to come, as both bounds.
    pub fn size_hint(&self) -> (r: (usize, Option<usize>))
        ensures
            r.0 == self.remaining(),
            r.1 == Some(r.0),
    {
        self.inner.size_hint()
    }
}

} // verus!
