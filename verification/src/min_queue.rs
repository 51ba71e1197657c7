//! A min-priority queue of `(arrival_time, stop_id)` pairs, ordered
//! lexicographically, kept as a binary heap.

use vstd::prelude::*;
use vstd::multiset::Multiset;

verus! {

broadcast use vstd::seq_lib::group_to_multiset_ensures;

/// Lexicographic order on `(arrival_time, stop_id)` pairs.
pub open spec fn pair_le(a: (u32, u32), b: (u32, u32)) -> bool {
    a.0 < b.0 || (a.0 == b.0 && a.1 <= b.1)
}

/// Index of the parent of slot `i` of a binary heap.
pub open spec fn parent(i: int) -> int {
    (i - 1) / 2
}

/// Every slot of `s` other than the root holds a pair no smaller than its
/// parent's, except that slot `hole` may be smaller than its parent.
pub open spec fn heap_except(s: Seq<(u32, u32)>, hole: int) -> bool {
    forall|i: int| 0 < i < s.len() && i != hole ==> pair_le(s[parent(i)], #[trigger] s[i])
}

/// No slot's children are smaller than its parent's pair.
pub open spec fn grandparent_ok(s: Seq<(u32, u32)>, k: int) -> bool {
    k > 0 ==> forall|c: int|
        0 < c < s.len() && parent(c) == k ==> pair_le(s[parent(k)], #[trigger] s[c])
}

/// `s` is a binary min-heap.
pub open spec fn is_heap(s: Seq<(u32, u32)>) -> bool {
    forall|i: int| 0 < i < s.len() ==> pair_le(s[parent(i)], #[trigger] s[i])
}

proof fn lemma_root_is_min(s: Seq<(u32, u32)>, i: int)
    requires
        is_heap(s),
        0 <= i < s.len(),
    ensures
        pair_le(s[0], s[i]),
    decreases i,
{
    if i > 0 {
        lemma_root_is_min(s, parent(i));
        assert(pair_le(s[parent(i)], s[i]));
    }
}

proof fn lemma_swap_multiset(s: Seq<(u32, u32)>, i: int, j: int)
    requires
        0 <= i < s.len(),
        0 <= j < s.len(),
    ensures
        s.update(i, s[j]).update(j, s[i]).to_multiset() =~= s.to_multiset(),
{
    let s1 = s.update(i, s[j]);
    assert(s1.to_multiset() =~= s.to_multiset().insert(s[j]).remove(s[i]));
    if i != j {
        assert(s1[j] == s[j]);
    } else {
        assert(s1[j] == s[i]);
    }
    assert(s1.update(j, s[i]).to_multiset() =~= s1.to_multiset().insert(s[i]).remove(s1[j]));
}

fn swap_slots(items: &mut Vec<(u32, u32)>, i: usize, j: usize)
    requires
        i < old(items)@.len(),
        j < old(items)@.len(),
    ensures
        final(items)@ == old(items)@.update(i as int, old(items)@[j as int]).update(
            j as int,
            old(items)@[i as int],
        ),
        final(items)@.to_multiset() == old(items)@.to_multiset(),
{
    proof {
        lemma_swap_multiset(items@, i as int, j as int);
    }
    let a = items[i];
    let b = items[j];
    items.set(i, b);
    items.set(j, a);
}

/// Moves the pair in slot `k` up until the heap shape is restored.
fn sift_up(items: &mut Vec<(u32, u32)>, k0: usize)
    requires
        k0 < old(items)@.len(),
        heap_except(old(items)@, k0 as int),
        grandparent_ok(old(items)@, k0 as int),
    ensures
        is_heap(final(items)@),
        final(items)@.to_multiset() == old(items)@.to_multiset(),
        final(items)@.len() == old(items)@.len(),
{
    let mut k = k0;
    while k > 0
        invariant
            k < items@.len(),
            items@.len() == old(items)@.len(),
            heap_except(items@, k as int),
            grandparent_ok(items@, k as int),
            items@.to_multiset() == old(items)@.to_multiset(),
        ensures
            is_heap(items@),
            items@.len() == old(items)@.len(),
            items@.to_multiset() == old(items)@.to_multiset(),
        decreases k,
    {
        let p = (k - 1) / 2;
        let a = items[p];
        let b = items[k];
        if a.0 < b.0 || (a.0 == b.0 && a.1 <= b.1) {
            proof {
                assert forall|i: int| 0 < i < items@.len() implies pair_le(
                    items@[parent(i)],
                    #[trigger] items@[i],
                ) by {
                    if i == k {
                        assert(parent(i) == p);
                    }
                }
            }
            break;
        }
        let ghost s = items@;
        swap_slots(items, p, k);
        proof {
            let s2 = items@;
            assert forall|i: int| 0 < i < s2.len() && i != p implies pair_le(
                s2[parent(i)],
                #[trigger] s2[i],
            ) by {
                if i == k {
                } else if parent(i) == k {
                    assert(pair_le(s[parent(k as int)], s[i]));
                } else if parent(i) == p {
                    assert(pair_le(s[p as int], s[i]));
                } else {
                    assert(pair_le(s[parent(i)], s[i]));
                }
            }
            if p > 0 {
                assert forall|c: int| 0 < c < s2.len() && parent(c) == p implies pair_le(
                    s2[parent(p as int)],
                    #[trigger] s2[c],
                ) by {
                    assert(pair_le(s[parent(p as int)], s[p as int]));
                    if c != k {
                        assert(pair_le(s[p as int], s[c]));
                    }
                }
            }
        }
        k = p;
    }
}

/// Moves the pair in slot `k0` down until the heap shape is restored.
fn sift_down(items: &mut Vec<(u32, u32)>, k0: usize)
    requires
        k0 < old(items)@.len(),
        forall|i: int| 0 < i < old(items)@.len() && parent(i) != k0 ==> pair_le(
            old(items)@[parent(i)],
            #[trigger] old(items)@[i],
        ),
        grandparent_ok(old(items)@, k0 as int),
    ensures
        is_heap(final(items)@),
        final(items)@.to_multiset() == old(items)@.to_multiset(),
        final(items)@.len() == old(items)@.len(),
{
    let m = items.len();
    let mut k = k0;
    loop
        invariant
            m == items@.len(),
            m == old(items)@.len(),
            k < m,
            forall|i: int| 0 < i < m && parent(i) != k ==> pair_le(
                items@[parent(i)],
                #[trigger] items@[i],
            ),
            grandparent_ok(items@, k as int),
            items@.to_multiset() == old(items)@.to_multiset(),
        ensures
            is_heap(items@),
            items@.len() == old(items)@.len(),
            items@.to_multiset() == old(items)@.to_multiset(),
        decreases m - k,
    {
        if k >= m / 2 {
            // slot k has no child
            proof {
                assert forall|i: int| 0 < i < m implies pair_le(
                    items@[parent(i)],
                    #[trigger] items@[i],
                ) by {
                    assert(parent(i) != k);
                }
            }
            break;
        }
        let l = 2 * k + 1;
        let r = l + 1;
        let mut c = l;
        if r < m {
            let a = items[r];
            let b = items[l];
            if a.0 < b.0 || (a.0 == b.0 && a.1 < b.1) {
                c = r;
            }
        }
        let a = items[k];
        let b = items[c];
        if a.0 < b.0 || (a.0 == b.0 && a.1 <= b.1) {
            proof {
                assert forall|i: int| 0 < i < m implies pair_le(
                    items@[parent(i)],
                    #[trigger] items@[i],
                ) by {
                    if parent(i) == k {
                        assert(i == l || i == r);
                    }
                }
            }
            break;
        }
        let ghost s = items@;
        swap_slots(items, k, c);
        proof {
            let s2 = items@;
            assert(parent(c as int) == k);
            assert forall|i: int| 0 < i < m && parent(i) != c implies pair_le(
                s2[parent(i)],
                #[trigger] s2[i],
            ) by {
                if i == c {
                } else if parent(i) == k {
                    assert(i == l || i == r);
                } else if i == k {
                    assert(pair_le(s[parent(k as int)], s[c as int]));
                } else {
                    assert(pair_le(s[parent(i)], s[i]));
                }
            }
            assert forall|cc: int| 0 < cc < m && parent(cc) == c implies pair_le(
                s2[parent(c as int)],
                #[trigger] s2[cc],
            ) by {
                assert(pair_le(s[c as int], s[cc]));
            }
        }
        k = c;
    }
}

/// A priority queue that hands out its smallest pair first.
pub struct MinQueue {
    items: Vec<(u32, u32)>,
}

impl MinQueue {
    /// The storage is a binary min-heap.
    #[verifier::type_invariant]
    closed spec fn wf(&self) -> bool {
        is_heap(self.items@)
    }

    /// The pairs held, with their multiplicities.
    pub closed spec fn view(&self) -> Multiset<(u32, u32)> {
        self.items@.to_multiset()
    }

    /// An empty queue.
    pub fn new() -> (q: MinQueue)
        ensures
            q.view() == Multiset::<(u32, u32)>::empty(),
    {
        let q = MinQueue { items: Vec::new() };
        assert(q.items@.to_multiset() =~= Multiset::empty()) by {
            assert(q.items@ =~= Seq::<(u32, u32)>::empty());
        }
        q
    }

    /// Number of pairs held.
    pub fn len(&self) -> (n: usize)
        ensures
            n == self.view().len(),
    {
        self.items.len()
    }

    /// Whether no pair is held.
    pub fn is_empty(&self) -> (b: bool)
        ensures
            b <==> self.view().len() == 0,
    {
        self.items.len() == 0
    }

    /// Adds a pair.
    pub fn push(&mut self, item: (u32, u32))
        ensures
            final(self).view() == old(self).view().insert(item),
    {
        proof {
            use_type_invariant(&*self);
        }
        let mut items: Vec<(u32, u32)> = Vec::new();
        std::mem::swap(&mut items, &mut self.items);
        let ghost s0 = items@;
        items.push(item);
        let k = items.len() - 1;
        proof {
            assert forall|i: int| 0 < i < items@.len() && i != k implies pair_le(
                items@[parent(i)],
                #[trigger] items@[i],
            ) by {
                assert(pair_le(s0[parent(i)], s0[i]));
            }
            if k > 0 {
                assert forall|c: int| 0 < c < items@.len() && parent(c) == k implies pair_le(
                    items@[parent(k as int)],
                    #[trigger] items@[c],
                ) by {
                }
            }
        }
        sift_up(&mut items, k);
        self.items = items;
    }

    /// Removes and returns a smallest pair, or `None` when the queue is empty.
    pub fn pop(&mut self) -> (r: Option<(u32, u32)>)
        ensures
            old(self).view().len() == 0 ==> r is None && final(self).view() == old(self).view(),
            old(self).view().len() > 0 ==> (r matches Some(x) && old(self).view().count(x) > 0
                && final(self).view() == old(self).view().remove(x) && (forall|y: (u32, u32)|
                old(self).view().count(y) > 0 ==> pair_le(x, y))),
    {
        proof {
            use_type_invariant(&*self);
        }
        let n = self.items.len();
        if n == 0 {
            return None;
        }
        let mut items: Vec<(u32, u32)> = Vec::new();
        std::mem::swap(&mut items, &mut self.items);
        let ghost s0 = items@;
        proof {
            assert forall|y: (u32, u32)| s0.to_multiset().count(y) > 0 implies pair_le(s0[0], y) by {
                assert(s0.contains(y));
                let k = choose|k: int| 0 <= k < s0.len() && s0[k] == y;
                lemma_root_is_min(s0, k);
            }
            assert(s0.contains(s0[0]));
        }
        swap_slots(&mut items, 0, n - 1);
        let ghost s1 = items@;
        let x = match items.pop() {
            Some(x) => x,
            None => {
                self.items = items;
                return None;
            },
        };
        proof {
            assert(s1 =~= items@.push(x));
            assert(x == s0[0]);
            assert(items@.to_multiset() =~= s0.to_multiset().remove(x));
        }
        if items.len() > 0 {
            proof {
                assert forall|i: int| 0 < i < items@.len() && parent(i) != 0 implies pair_le(
                    items@[parent(i)],
                    #[trigger] items@[i],
                ) by {
                    assert(pair_le(s0[parent(i)], s0[i]));
                }
            }
            sift_down(&mut items, 0);
        }
        self.items = items;
        Some(x)
    }
}

} // verus!
