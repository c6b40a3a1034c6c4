use vstd::prelude::*;
use vstd::multiset::Multiset;
use vstd::seq_lib::group_to_multiset_ensures;

verus! {

broadcast use group_to_multiset_ensures;

/// `a` comes before `b`: lower cost first, then lower position.
pub open spec fn entry_le(a: (i64, usize), b: (i64, usize)) -> bool {
    a.0 < b.0 || (a.0 == b.0 && a.1 <= b.1)
}

pub open spec fn parent(i: int) -> int {
    (i - 1) / 2
}

/// Every entry but the root comes no earlier than its parent.
pub open spec fn heap_ordered(s: Seq<(i64, usize)>) -> bool {
    forall|j: int| 0 < j < s.len() ==> entry_le(s[parent(j)], #[trigger] s[j])
}

/// A binary min-heap of `(cost, position)` entries, kept in an array where
/// the children of entry `i` sit at `2i + 1` and `2i + 2`.
pub struct MinQueue {
    items: Vec<(i64, usize)>,
}

impl View for MinQueue {
    type V = Multiset<(i64, usize)>;

    closed spec fn view(&self) -> Multiset<(i64, usize)> {
        self.items@.to_multiset()
    }
}

proof fn lemma_root_least(s: Seq<(i64, usize)>, j: int)
    requires
        heap_ordered(s),
        0 <= j < s.len(),
    ensures
        entry_le(s[0], s[j]),
    decreases j,
{
    if j > 0 {
        lemma_root_least(s, parent(j));
    }
}

impl MinQueue {
    pub closed spec fn wf(&self) -> bool {
        heap_ordered(self.items@)
    }

    pub fn with_capacity(capacity: usize) -> (r: Self)
        ensures
            r.wf(),
            r@ == Multiset::<(i64, usize)>::empty(),
    {
        let r = MinQueue { items: Vec::with_capacity(capacity) };
        assert(r.items@ =~= Seq::<(i64, usize)>::empty());
        r
    }

    pub fn len(&self) -> (r: usize)
        ensures
            r == self@.len(),
    {
        self.items.len()
    }

    pub fn push(&mut self, cost: i64, position: usize)
        requires
            old(self).wf(),
        ensures
            final(self).wf(),
            final(self)@ == old(self)@.insert((cost, position)),
    {
        self.items.push((cost, position));
        let mut i: usize = self.items.len() - 1;
        loop
            invariant
                0 <= i < self.items@.len(),
                self.items@.to_multiset() == old(self)@.insert((cost, position)),
                forall|j: int| 0 < j < self.items@.len() && j != i ==>
                    entry_le(self.items@[parent(j)], #[trigger] self.items@[j]),
                i > 0 ==> forall|c: int| 0 < c < self.items@.len() && parent(c) == i ==>
                    entry_le(self.items@[parent(i as int)], #[trigger] self.items@[c]),
            ensures
                heap_ordered(self.items@),
                self.items@.to_multiset() == old(self)@.insert((cost, position)),
            decreases i,
        {
            if i == 0 {
                break;
            }
            let p = (i - 1) / 2;
            let (c, q) = self.items[i];
            let (pc, pq) = self.items[p];
            if pc < c || (pc == c && pq <= q) {
                assert(entry_le(self.items@[parent(i as int)], self.items@[i as int]));
                break;
            }
            let ghost before = self.items@;
            self.items.set(i, (pc, pq));
            self.items.set(p, (c, q));
            proof {
                assert(self.items@ =~= before.update(i as int, before[p as int]).update(p as int, before[i as int]));
                assert(before.update(i as int, before[p as int]).to_multiset() == before.to_multiset().insert(before[p as int]).remove(before[i as int]));
            }
            i = p;
        }
    }

    /// Removes and returns the least entry: lowest cost, then lowest position.
    pub fn pop(&mut self) -> (r: Option<(i64, usize)>)
        requires
            old(self).wf(),
        ensures
            final(self).wf(),
            old(self)@.len() == 0 <==> r is None,
            old(self)@.len() == 0 ==> final(self)@ == old(self)@,
            r matches Some(x) ==> old(self)@.count(x) > 0 && final(self)@ == old(self)@.remove(x),
            r matches Some(x) ==> forall|y: (i64, usize)| old(self)@.count(y) > 0 ==> entry_le(x, y),
    {
        let n = self.items.len();
        if n == 0 {
            return None;
        }
        let top = self.items[0];
        proof {
            assert forall|y: (i64, usize)| old(self)@.count(y) > 0 implies entry_le(top, y) by {
                assert(self.items@.contains(y));
                let j = choose|j: int| 0 <= j < self.items@.len() && self.items@[j] == y;
                lemma_root_least(self.items@, j);
            }
        }
        let ghost old_items = self.items@;
        let last = self.items.pop().unwrap();
        proof {
            assert(old_items =~= self.items@.push(last));
        }
        if n == 1 {
            proof {
                assert(self.items@ =~= Seq::<(i64, usize)>::empty());
                assert(old_items =~= seq![top]);
                assert(old_items.to_multiset() =~= Seq::<(i64, usize)>::empty().to_multiset().insert(top));
                assert(self@ =~= old(self)@.remove(top));
            }
            return Some(top);
        }
        let ghost shrunk = self.items@;
        self.items.set(0, last);
        proof {
            assert(shrunk[0] == top);
            assert(self.items@ == shrunk.update(0, last));
            assert(self.items@.to_multiset() =~= old(self)@.remove(top));
        }
        let len = self.items.len();
        let mut i: usize = 0;
        loop
            invariant
                len == self.items@.len(),
                len == n - 1,
                i < len,
                self.items@.to_multiset() == old(self)@.remove(top),
                forall|j: int| 0 < j < len && parent(j) != i ==>
                    entry_le(self.items@[parent(j)], #[trigger] self.items@[j]),
                i > 0 ==> forall|c: int| 0 < c < len && parent(c) == i ==>
                    entry_le(self.items@[parent(i as int)], #[trigger] self.items@[c]),
            ensures
                heap_ordered(self.items@),
                self.items@.to_multiset() == old(self)@.remove(top),
            decreases len - i,
        {
            if i >= (len - 1) / 2 + 1 || 2 * i + 1 >= len {
                proof {
                    assert forall|j: int| 0 < j < len implies entry_le(self.items@[parent(j)], #[trigger] self.items@[j]) by {
                        if parent(j) == i {
                            assert(j >= 2 * i + 1);
                        }
                    }
                }
                break;
            }
            let l = 2 * i + 1;
            let r = l + 1;
            let m = if r < len && (self.items[r].0 < self.items[l].0
                || (self.items[r].0 == self.items[l].0 && self.items[r].1 < self.items[l].1)) {
                r
            } else {
                l
            };
            let (ic, ip) = self.items[i];
            let (mc, mp) = self.items[m];
            if ic < mc || (ic == mc && ip <= mp) {
                proof {
                    assert forall|j: int| 0 < j < len implies entry_le(self.items@[parent(j)], #[trigger] self.items@[j]) by {
                        if parent(j) == i {
                            assert(j == l || j == r);
                        }
                    }
                }
                break;
            }
            let ghost before = self.items@;
            self.items.set(i, (mc, mp));
            self.items.set(m, (ic, ip));
            proof {
                assert(self.items@ =~= before.update(i as int, before[m as int]).update(m as int, before[i as int]));
                assert(before.update(i as int, before[m as int]).to_multiset()
                    == before.to_multiset().insert(before[m as int]).remove(before[i as int]));
                assert forall|j: int| 0 < j < len && parent(j) != m implies
                    entry_le(self.items@[parent(j)], #[trigger] self.items@[j]) by {
                    if parent(j) == i {
                        assert(j == l || j == r);
                    }
                    if j == i && i > 0 {
                        assert(parent(m as int) == i);
                    }
                }
            }
            i = m;
        }
        Some(top)
    }
}

} // verus!
