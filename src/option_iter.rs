//! Yields the values of a sequence of options up to the first `None`.
use vstd::prelude::*;

verus! {

/// The values of `s` before its first `None`.
pub open spec fn some_prefix<E>(s: Seq<Option<E>>) -> Seq<E>
    decreases s.len(),
{
    if s.len() == 0 || s[0] is None {
        Seq::empty()
    } else {
        seq![s[0].unwrap()] + some_prefix(s.drop_first())
    }
}

/// The values before the first `None` are no more than the options.
pub proof fn lemma_some_prefix_len<E>(s: Seq<Option<E>>)
    ensures
        some_prefix(s).len() <= s.len(),
    decreases s.len(),
{
    if s.len() > 0 && s[0] is Some {
        lemma_some_prefix_len(s.drop_first());
    }
}

/// Iterates over a sequence of options, yielding each `Some` value until the first `None`;
/// from then on it yields nothing, whatever follows.
pub struct OptionIter<E> {
    upstream: Vec<Option<E>>,
    pos: usize,
    fused: bool,
}

impl<E> View for OptionIter<E> {
    type V = Seq<E>;

    /// The values still to be yielded.
    closed spec fn view(&self) -> Seq<E> {
        if self.fused {
            Seq::empty()
        } else {
            some_prefix(self.upstream@.subrange(self.pos as int, self.upstream.len() as int))
        }
    }
}

impl<E> OptionIter<E> {
    /// The internal invariant: the position lies within the options.
    pub closed spec fn wf(&self) -> bool {
        self.pos <= self.upstream.len()
    }

    /// An iterator over the values of `upstream` before its first `None`.
    pub fn new(upstream: Vec<Option<E>>) -> (r: OptionIter<E>)
        ensures
            r.wf(),
            r@ == some_prefix(upstream@),
    {
        let r = OptionIter { upstream, pos: 0, fused: false };
        proof {
            assert(r.upstream@.subrange(0, r.upstream.len() as int) =~= r.upstream@);
        }
        r
    }

    /// The next value, or `None` once the first `None` or the end is reached.
    pub fn next(&mut self) -> (r: Option<E>)
        requires
            old(self).wf(),
        ensures
            final(self).wf(),
            old(self)@.len() == 0 ==> (r is None && final(self)@.len() == 0),
            old(self)@.len() > 0 ==> (r == Some(old(self)@[0]) && final(self)@ == old(self)@.drop_first()),
    {
        if self.fused {
            return None;
        }
        if self.pos >= self.upstream.len() {
            self.fused = true;
            return None;
        }
        let ghost rest = self.upstream@.subrange(self.pos as int, self.upstream.len() as int);
        let idx = self.pos;
        match self.upstream[idx].take() {
            Some(v) => {
                self.pos = self.pos + 1;
                proof {
                    assert(rest.drop_first() =~= self.upstream@.subrange(self.pos as int, self.upstream.len() as int));
                }
                Some(v)
            },
            None => {
                self.fused = true;
                None
            },
        }
    }

    /// Bounds on how many values are left: at least none, at most the options left.
    pub fn size_hint(&self) -> (r: (usize, Option<usize>))
        requires
            self.wf(),
        ensures
            r.0 == 0,
            r.1 matches Some(u) && self@.len() <= u,
    {
        if self.fused {
            (0, Some(0))
        } else {
            proof {
                lemma_some_prefix_len(self.upstream@.subrange(self.pos as int, self.upstream.len() as int));
            }
            (0, Some(self.upstream.len() - self.pos))
        }
    }
}

} // verus!
