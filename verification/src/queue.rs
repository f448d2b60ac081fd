//! A priority queue of cells that hands out a cell of least key first.

use crate::grid::Cell;
use vstd::multiset::Multiset;
use vstd::prelude::*;

verus! {

/// A cell waiting in the queue together with its key.
pub type Entry = (i64, Cell);

/// Whether the links across position `hole` are in order: the parent of
/// `hole` is no larger than the children of `hole`.
spec fn bridged(items: Seq<Entry>, hole: int) -> bool {
    forall|i: int, c: int|
        #![trigger items[i], items[c]]
        0 <= i && i < hole < c < items.len() && (hole == 2 * i + 1 || hole == 2 * i + 2) && (c == 2
            * hole + 1 || c == 2 * hole + 2) ==> items[i].0 <= items[c].0
}

/// Heap order but for the link from the parent of `hole` to `hole`.
spec fn heap_above(items: Seq<Entry>, hole: int) -> bool {
    &&& forall|i: int, c: int|
        #![trigger items[i], items[c]]
        0 <= i && i < c < items.len() && (c == 2 * i + 1 || c == 2 * i + 2) && c != hole
            ==> items[i].0 <= items[c].0
    &&& bridged(items, hole)
}

/// Heap order but for the links from `hole` to its children.
spec fn heap_below(items: Seq<Entry>, hole: int) -> bool {
    &&& forall|i: int, c: int|
        #![trigger items[i], items[c]]
        0 <= i && i < c < items.len() && (c == 2 * i + 1 || c == 2 * i + 2) && i != hole
            ==> items[i].0 <= items[c].0
    &&& bridged(items, hole)
}

/// Whether every entry of `items` has a key no larger than the keys of its
/// two children in the implicit binary tree.
spec fn heap(items: Seq<Entry>) -> bool {
    forall|i: int, c: int|
        #![trigger items[i], items[c]]
        0 <= i && i < c < items.len() && (c == 2 * i + 1 || c == 2 * i + 2) ==> items[i].0
            <= items[c].0
}

proof fn lemma_root_is_least(items: Seq<Entry>, i: int)
    requires
        heap(items),
        0 <= i < items.len(),
    ensures
        items[0].0 <= items[i].0,
    decreases i,
{
    if i > 0 {
        let p = (i - 1) / 2;
        assert(i == 2 * p + 1 || i == 2 * p + 2);
        lemma_root_is_least(items, p);
        assert(items[p].0 <= items[i].0);
    }
}

/// A queue of keyed cells.
pub struct MinQueue {
    items: Vec<Entry>,
}

impl View for MinQueue {
    type V = Multiset<Entry>;

    closed spec fn view(&self) -> Multiset<Entry> {
        self.items@.to_multiset()
    }
}

impl MinQueue {
    /// The entries are kept in heap order.
    pub closed spec fn wf(&self) -> bool {
        heap(self.items@)
    }

    /// An empty queue.
    pub fn new() -> (q: Self)
        ensures
            q.wf(),
            q@ == Multiset::<Entry>::empty(),
    {
        let q = MinQueue { items: Vec::new() };
        proof {
            broadcast use vstd::seq_lib::group_to_multiset_ensures;

            assert(q.items@ =~= Seq::<Entry>::empty());
            assert(q@.len() == 0);
            assert(q@ =~= Multiset::<Entry>::empty());
        }
        q
    }

    /// The number of entries in the queue.
    pub fn len(&self) -> (n: usize)
        ensures
            n == self@.len(),
    {
        proof {
            broadcast use vstd::seq_lib::group_to_multiset_ensures;

        }
        self.items.len()
    }

    /// Adds `cell` with key `key`.
    pub fn push(&mut self, key: i64, cell: Cell)
        requires
            old(self).wf(),
        ensures
            final(self).wf(),
            final(self)@ == old(self)@.insert((key, cell)),
    {
        proof {
            broadcast use vstd::seq_lib::group_to_multiset_ensures;

        }
        self.items.push((key, cell));
        let ghost target = old(self)@.insert((key, cell));
        assert(self.items@ == old(self).items@.push((key, cell)));
        let mut k: usize = self.items.len() - 1;
        while k > 0
            invariant
                k < self.items@.len(),
                heap_above(self.items@, k as int),
                self@ == target,
            ensures
                heap(self.items@),
                self@ == target,
            decreases k,
        {
            let p: usize = (k - 1) / 2;
            assert(k == 2 * p + 1 || k == 2 * p + 2);
            let below: Entry = self.items[k];
            let above: Entry = self.items[p];
            if above.0 <= below.0 {
                break;
            }
            let ghost before = self.items@;
            self.items[p] = below;
            self.items[k] = above;
            proof {
                broadcast use vstd::seq_lib::group_to_multiset_ensures;

                lemma_swap_multiset(before, p as int, k as int);
                assert(self.items@ =~= before.update(p as int, below).update(k as int, above));
            }
            k = p;
        }
    }

    /// Takes out an entry whose key is least; `None` when the queue is empty.
    pub fn pop(&mut self) -> (r: Option<Entry>)
        requires
            old(self).wf(),
        ensures
            final(self).wf(),
            old(self)@.len() == 0 ==> r.is_none() && final(self)@ == old(self)@,
            old(self)@.len() > 0 ==> r.is_some(),
            r matches Some(e) ==> {
                &&& old(self)@.count(e) > 0
                &&& final(self)@ == old(self)@.remove(e)
                &&& forall|x: Entry| old(self)@.count(x) > 0 ==> e.0 <= x.0
            },
    {
        proof {
            broadcast use vstd::seq_lib::group_to_multiset_ensures;

        }
        let n: usize = self.items.len();
        if n == 0 {
            return None;
        }
        let top: Entry = self.items[0];
        let ghost before = self.items@;
        proof {
            assert forall|x: Entry| old(self)@.count(x) > 0 implies top.0 <= x.0 by {
                assert(before.contains(x));
                let i = choose|i: int| 0 <= i < before.len() && before[i] == x;
                lemma_root_is_least(before, i);
            }
            assert(before.contains(top));
        }
        let last: Entry = self.items[n - 1];
        self.items.pop();
        let ghost target = old(self)@.remove(top);
        if n == 1 {
            proof {
                assert(self.items@ =~= before.remove(0));
            }
            return Some(top);
        }
        self.items[0] = last;
        proof {
            let short = before.drop_last();
            assert(before =~= short.push(last));
            assert(self.items@ =~= short.update(0, last));
            assert(short.to_multiset().insert(last).remove(top) =~= short.to_multiset().remove(
                top,
            ).insert(last));
        }
        let m: usize = n - 1;
        let mut k: usize = 0;
        while k < m / 2
            invariant
                m == self.items@.len(),
                k < m,
                heap_below(self.items@, k as int),
                self@ == target,
            ensures
                heap(self.items@),
                self@ == target,
            decreases m - k,
        {
            let left: usize = 2 * k + 1;
            let right: usize = left + 1;
            let c: usize = if right < m && self.items[right].0 < self.items[left].0 {
                right
            } else {
                left
            };
            let below: Entry = self.items[c];
            let above: Entry = self.items[k];
            if above.0 <= below.0 {
                break;
            }
            let ghost before = self.items@;
            self.items[k] = below;
            self.items[c] = above;
            proof {
                broadcast use vstd::seq_lib::group_to_multiset_ensures;

                lemma_swap_multiset(before, k as int, c as int);
                assert(self.items@ =~= before.update(k as int, below).update(c as int, above));
            }
            k = c;
        }
        Some(top)
    }
}

proof fn lemma_swap_multiset(s: Seq<Entry>, i: int, j: int)
    requires
        0 <= i < s.len(),
        0 <= j < s.len(),
    ensures
        s.update(i, s[j]).update(j, s[i]).to_multiset() == s.to_multiset(),
{
    broadcast use vstd::seq_lib::group_to_multiset_ensures;

    vstd::seq_lib::to_multiset_update(s, i, s[j]);
    vstd::seq_lib::to_multiset_update(s.update(i, s[j]), j, s[i]);
    if i == j {
        assert(s.update(i, s[j]).update(j, s[i]) =~= s);
    } else {
        assert(s.to_multiset().count(s[i]) > 0) by {
            assert(s.contains(s[i]));
        }
        assert(s.to_multiset().count(s[j]) > 0) by {
            assert(s.contains(s[j]));
        }
        assert(s.update(i, s[j]).update(j, s[i]).to_multiset() =~= s.to_multiset());
    }
}

} // verus!
