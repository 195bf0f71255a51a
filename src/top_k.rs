//! Keeps the best `k` of a stream of scored items in one pass, in a fixed number of slots.
use vstd::prelude::*;

verus! {

/// Inserts `tmp` at slot `idx`, shifting the later slots right by one; what was in the last
/// slot drops out. Past the last slot nothing changes and `tmp` is dropped.
fn array_insert<E>(elems: &mut Vec<E>, tmp: E, idx: usize)
    ensures
        idx < old(elems).len() ==> final(elems)@ == old(elems)@.insert(idx as int, tmp).drop_last(),
        idx >= old(elems).len() ==> final(elems)@ == old(elems)@,
{
    if idx >= elems.len() {
        return;
    }
    let ghost start = elems@;
    let ghost first = tmp;
    let mut tmp = tmp;
    let mut i: usize = idx;
    while i < elems.len()
        invariant
            idx <= i <= elems.len(),
            elems.len() == start.len(),
            forall|j: int| 0 <= j < idx ==> elems@[j] == start[j],
            forall|j: int| idx < j < i ==> elems@[j] == start[j - 1],
            i > idx ==> elems@[idx as int] == first,
            i > idx ==> tmp == start[i - 1],
            i == idx ==> tmp == first,
            forall|j: int| i <= j < elems.len() ==> elems@[j] == start[j],
        decreases elems.len() - i,
    {
        std::mem::swap(&mut tmp, &mut elems[i]);
        i += 1;
    }
    proof {
        assert(elems@ =~= start.insert(idx as int, first).drop_last());
    }
}

/// Whether the item at index `i` ranks before the item at index `j`: a higher score, or an
/// equal score and an earlier index.
pub open spec fn better(s: Seq<u64>, i: int, j: int) -> bool {
    s[i] > s[j] || (s[i] == s[j] && i < j)
}

/// Whether `picked` lists the indices of the best `k` scores of `s` from best to worst, ties
/// going to the earlier index: `min(k, n)` indices of `s`, each ranking before the next, and
/// every index left out ranking after all of them.
pub open spec fn is_top_k(s: Seq<u64>, k: nat, picked: Seq<int>) -> bool {
    &&& picked.len() == if k < s.len() { k } else { s.len() }
    &&& forall|a: int| 0 <= a < picked.len() ==> 0 <= #[trigger] picked[a] < s.len()
    &&& forall|a: int, b: int| 0 <= a < b < picked.len() ==> #[trigger] better(s, picked[a], picked[b])
    &&& forall|j: int, a: int| 0 <= j < s.len() && !picked.contains(j) && 0 <= a < picked.len()
        ==> #[trigger] better(s, picked[a], j)
}

/// Whether `order` lists every index of `s` once, sorted by descending score and, among
/// equal scores, by index: what a stable sort of the items by descending score gives.
pub open spec fn is_ranking(s: Seq<u64>, order: Seq<int>) -> bool {
    &&& order.len() == s.len()
    &&& forall|a: int| 0 <= a < order.len() ==> 0 <= #[trigger] order[a] < s.len()
    &&& forall|j: int| 0 <= j < s.len() ==> order.contains(j)
    &&& forall|a: int, b: int| 0 <= a < b < order.len() ==> #[trigger] better(s, order[a], order[b])
}

/// The selection agrees with a stable sort by descending score on its first `a + 1` entries.
proof fn lemma_top_k_prefix(s: Seq<u64>, k: nat, picked: Seq<int>, order: Seq<int>, a: int)
    requires
        is_top_k(s, k, picked),
        is_ranking(s, order),
        0 <= a < picked.len(),
    ensures
        forall|b: int| 0 <= b <= a ==> picked[b] == order[b],
    decreases a,
{
    if a > 0 {
        lemma_top_k_prefix(s, k, picked, order, a - 1);
    }
    let x = picked[a];
    let y = order[a];
    if x != y {
        if better(s, x, y) {
            assert(order.contains(x));
            let c = choose|c: int| 0 <= c < order.len() && order[c] == x;
            if c > a {
                assert(better(s, order[a], order[c]));
            }
            assert(c < a);
            assert(picked[c] == x);
            assert(better(s, picked[c], picked[a]));
        } else {
            assert(better(s, y, x));
            if picked.contains(y) {
                let c = choose|c: int| 0 <= c < picked.len() && picked[c] == y;
                if c > a {
                    assert(better(s, picked[a], picked[c]));
                }
                assert(c < a);
                assert(order[c] == y);
                assert(better(s, order[c], order[a]));
            } else {
                assert(better(s, picked[a], y));
            }
        }
    }
}

/// The selection is the sort-and-truncate answer: for any stable sort of the items by
/// descending score, the selected indices are its first `min(k, n)` entries.
pub proof fn lemma_top_k_is_sorted_prefix(s: Seq<u64>, k: nat, picked: Seq<int>, order: Seq<int>)
    requires
        is_top_k(s, k, picked),
        is_ranking(s, order),
    ensures
        picked.len() == if k < s.len() { k } else { s.len() },
        picked == order.take(picked.len() as int),
{
    if picked.len() > 0 {
        lemma_top_k_prefix(s, k, picked, order, picked.len() - 1);
    }
    assert(picked =~= order.take(picked.len() as int));
}

/// Taking in an item that beats the selection at slot `i` keeps the selection the top `k`.
proof fn lemma_insert_keeps_top_k(s: Seq<u64>, k: nat, picked: Seq<int>, i: int, sv: u64) -> (q: Seq<int>)
    requires
        is_top_k(s, k, picked),
        picked.len() < k ==> forall|j: int| 0 <= j < s.len() ==> picked.contains(j),
        0 <= i <= picked.len(),
        i < k,
        forall|t: int| 0 <= t < i ==> s[#[trigger] picked[t]] >= sv,
        i < picked.len() ==> s[picked[i]] < sv,
    ensures
        q == if picked.len() < k { picked.insert(i, s.len() as int) } else {
            picked.insert(i, s.len() as int).drop_last()
        },
        is_top_k(s.push(sv), k, q),
        q.len() < k ==> forall|j: int| 0 <= j < s.len() + 1 ==> q.contains(j),
{
    let n = s.len() as int;
    let s2 = s.push(sv);
    let full = picked.len() >= k;
    let q = if picked.len() < k { picked.insert(i, n) } else { picked.insert(i, n).drop_last() };
    assert(forall|a: int| 0 <= a < i ==> q[a] == picked[a]);
    assert(q[i] == n);
    assert(forall|a: int| i < a < q.len() ==> q[a] == picked[a - 1]);
    assert forall|a: int| 0 <= a < q.len() implies 0 <= #[trigger] q[a] < s2.len() by {
        if a > i {
            assert(q[a] == picked[a - 1]);
        }
    }
    assert forall|a: int, b: int| 0 <= a < b < q.len() implies #[trigger] better(s2, q[a], q[b]) by {
        if b < i {
            assert(better(s, picked[a], picked[b]));
        } else if b == i {
        } else if a == i {
            if i < b - 1 {
                assert(better(s, picked[i], picked[b - 1]));
            }
        } else if a < i {
            assert(q[b] == picked[b - 1]);
            assert(better(s, picked[a], picked[b - 1]));
        } else {
            assert(better(s, picked[a - 1], picked[b - 1]));
        }
    }
    assert forall|j: int, a: int| 0 <= j < s2.len() && !q.contains(j) && 0 <= a < q.len()
        implies #[trigger] better(s2, q[a], j) by {
        assert(j != n) by {
            assert(q[i] == n);
        }
        if picked.contains(j) {
            let c = choose|c: int| 0 <= c < picked.len() && picked[c] == j;
            if c < i {
                assert(q[c] == j);
            } else if c + 1 < q.len() {
                assert(q[c + 1] == j);
            }
            assert(full && c == picked.len() - 1);
            if a < i {
                assert(better(s, picked[a], picked[c]));
            } else if a == i {
                if i < c {
                    assert(better(s, picked[i], picked[c]));
                }
            } else {
                assert(better(s, picked[a - 1], picked[c]));
            }
        } else {
            if !full {
                assert(picked.contains(j));
            }
            if a < i {
                assert(better(s, picked[a], j));
            } else if a == i {
                assert(better(s, picked[i], j));
            } else {
                assert(better(s, picked[a - 1], j));
            }
        }
    }
    if q.len() < k {
        assert forall|j: int| 0 <= j < n + 1 implies q.contains(j) by {
            if j == n {
                assert(q[i] == n);
            } else {
                assert(picked.contains(j));
                let c = choose|c: int| 0 <= c < picked.len() && picked[c] == j;
                if c < i {
                    assert(q[c] == j);
                } else {
                    assert(q[c + 1] == j);
                }
            }
        }
    }
    q
}

/// Passing over an item that beats no slot of a full selection keeps it the top `k`.
proof fn lemma_skip_keeps_top_k(s: Seq<u64>, k: nat, picked: Seq<int>, sv: u64)
    requires
        is_top_k(s, k, picked),
        picked.len() == k,
        forall|t: int| 0 <= t < k ==> s[#[trigger] picked[t]] >= sv,
    ensures
        is_top_k(s.push(sv), k, picked),
{
    let s2 = s.push(sv);
    assert forall|a: int, b: int| 0 <= a < b < picked.len() implies #[trigger] better(s2, picked[a], picked[b]) by {
        assert(better(s, picked[a], picked[b]));
    }
    assert forall|j: int, a: int| 0 <= j < s2.len() && !picked.contains(j) && 0 <= a < picked.len()
        implies #[trigger] better(s2, picked[a], j) by {
        if j < s.len() {
            assert(better(s, picked[a], j));
        }
    }
}

/// Whether a slot gives way to an item with score `score`: it is empty or holds a lower score.
fn beats(slot: &Option<u64>, score: u64) -> (r: bool)
    ensures
        r == (slot is None || slot.unwrap() < score),
{
    match slot {
        Some(other) => *other < score,
        None => true,
    }
}

/// The scores of a sequence of scored items.
pub open spec fn scores_of<E>(entries: Seq<(E, u64)>) -> Seq<u64> {
    entries.map_values(|e: (E, u64)| e.1)
}

/// The best `k` of a sequence of scored items, from the best down, ties going to the item
/// that came first. Yields them one at a time with `next`.
pub struct TopK<E> {
    items: Vec<Option<E>>,
    alive_start: usize,
    alive_end: usize,
    picked: Ghost<Seq<int>>,
}

impl<E> View for TopK<E> {
    type V = Seq<E>;

    /// The items still to be yielded, best first.
    closed spec fn view(&self) -> Seq<E> {
        Seq::new(
            (self.alive_end - self.alive_start) as nat,
            |t: int| self.items@[self.alive_start + t].unwrap(),
        )
    }
}

impl<E> TopK<E> {
    /// The indices, among the items given to `new`, of the items still to be yielded.
    pub closed spec fn selection(&self) -> Seq<int> {
        self.picked@.subrange(self.alive_start as int, self.alive_end as int)
    }

    /// The internal invariant: the live slots are filled.
    pub closed spec fn wf(&self) -> bool {
        &&& self.alive_start <= self.alive_end <= self.items.len()
        &&& self.picked@.len() == self.alive_end
        &&& forall|t: int| self.alive_start <= t < self.alive_end ==> #[trigger] self.items@[t] is Some
    }

    /// Selects, in one pass over `entries`, the `k` items with the highest scores, best
    /// first; among equal scores the earlier item ranks first. Each item is compared with the
    /// slots from the best down and goes into the first slot that is empty or holds a lower
    /// score, shifting the rest down by one.
    pub fn new(entries: Vec<(E, u64)>, k: usize) -> (r: TopK<E>)
        ensures
            r.wf(),
            is_top_k(scores_of(entries@), k as nat, r.selection()),
            r@.len() == r.selection().len(),
            forall|t: int| 0 <= t < r@.len() ==> r@[t] == entries@[#[trigger] r.selection()[t]].0,
    {
        let ghost all = entries@;
        let ghost sc = scores_of(all);
        let mut items: Vec<Option<E>> = Vec::new();
        let mut slots: Vec<Option<u64>> = Vec::new();
        let mut i: usize = 0;
        while i < k
            invariant
                i <= k,
                items.len() == i,
                slots.len() == i,
                forall|t: int| 0 <= t < i ==> items@[t] is None && slots@[t] is None,
            decreases k - i,
        {
            items.push(None);
            slots.push(None);
            i += 1;
        }
        let mut size: usize = 0;
        let ghost mut picked: Seq<int> = Seq::empty();
        let ghost mut n: int = 0;
        for entry in it: entries
            invariant
                it.seq() == all,
                n == it.index(),
                0 <= n <= all.len(),
                sc == scores_of(all),
                items.len() == k,
                slots.len() == k,
                size <= k,
                size == picked.len(),
                is_top_k(sc.take(n), k as nat, picked),
                picked.len() < k ==> forall|j: int| 0 <= j < n ==> picked.contains(j),
                forall|t: int| 0 <= t < size ==> #[trigger] slots@[t] == Some(sc[picked[t]]),
                forall|t: int| 0 <= t < size ==> #[trigger] items@[t] == Some(all[picked[t]].0),
                forall|t: int| size <= t < k ==> #[trigger] slots@[t] is None && items@[t] is None,
        {
            let (item, score) = entry;
            let ghost prefix = sc.take(n);
            proof {
                assert(sc.take(n + 1) =~= prefix.push(score));
                assert forall|t: int| 0 <= t < size implies #[trigger] prefix[picked[t]] == sc[picked[t]] by {}
            }
            let mut pos: usize = 0;
            while pos < k && !beats(&slots[pos], score)
                invariant
                    pos <= k,
                    slots.len() == k,
                    size <= k,
                    forall|t: int| size <= t < k ==> #[trigger] slots@[t] is None,
                    forall|t: int| 0 <= t < size ==> #[trigger] slots@[t] == Some(sc[picked[t]]),
                    forall|t: int| 0 <= t < pos ==> slots@[t] is Some && #[trigger] slots@[t].unwrap() >= score,
                decreases k - pos,
            {
                pos += 1;
            }
            proof {
                if pos > size {
                    assert(slots@[size as int] is Some);
                }
            }
            if pos < k {
                proof {
                    assert forall|t: int| 0 <= t < pos implies prefix[#[trigger] picked[t]] >= score by {
                        assert(slots@[t] is Some);
                        assert(slots@[t].unwrap() >= score);
                        assert(t < size);
                        assert(slots@[t] == Some(sc[picked[t]]));
                        assert(0 <= picked[t] < n);
                    }
                    if pos < size {
                        assert(slots@[pos as int] == Some(sc[picked[pos as int]]));
                    }
                }
                array_insert(&mut slots, Some(score), pos);
                array_insert(&mut items, Some(item), pos);
                proof {
                    picked = lemma_insert_keeps_top_k(prefix, k as nat, picked, pos as int, score);
                }
                if size < k {
                    size += 1;
                }
            } else {
                proof {
                    assert forall|t: int| 0 <= t < k implies prefix[#[trigger] picked[t]] >= score by {
                        assert(slots@[t] is Some);
                        assert(slots@[t].unwrap() >= score);
                        assert(t < size);
                        assert(slots@[t] == Some(sc[picked[t]]));
                        assert(0 <= picked[t] < n);
                    }
                    lemma_skip_keeps_top_k(prefix, k as nat, picked, score);
                }
            }
            proof {
                n = n + 1;
            }
        }
        proof {
            assert(sc.take(n) =~= sc);
            assert(picked.subrange(0, size as int) =~= picked);
        }
        TopK { items, alive_start: 0, alive_end: size, picked: Ghost(picked) }
    }
}

impl<E> TopK<E> {
    /// Yields the best item not yet yielded, or `None` once all are out.
    pub fn next(&mut self) -> (r: Option<E>)
        requires
            old(self).wf(),
        ensures
            final(self).wf(),
            old(self)@.len() == 0 ==> (r is None && final(self)@ == old(self)@ && final(self).selection() == old(self).selection()),
            old(self)@.len() > 0 ==> (r == Some(old(self)@[0]) && final(self)@ == old(self)@.drop_first()
                && final(self).selection() == old(self).selection().drop_first()),
    {
        if self.alive_start < self.alive_end {
            let idx = self.alive_start;
            self.alive_start = self.alive_start + 1;
            let r = self.items[idx].take();
            proof {
                assert(self@ =~= old(self)@.drop_first());
                assert(self.selection() =~= old(self).selection().drop_first());
            }
            r
        } else {
            proof {
                assert(self@ =~= old(self)@);
            }
            None
        }
    }

    /// How many items are left to yield, as a lower and an upper bound.
    pub fn size_hint(&self) -> (r: (usize, Option<usize>))
        requires
            self.wf(),
        ensures
            r.0 == self@.len(),
            r.1 == Some(self@.len() as usize),
    {
        let n = self.alive_end - self.alive_start;
        (n, Some(n))
    }
}

} // verus!
