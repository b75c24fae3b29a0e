//! The open list of a best-first search: a bag of (priority, point) entries that gives
//! out its least entry first. The entries are kept as a binary heap.

use vstd::multiset::*;
use vstd::prelude::*;
use vstd::seq_lib::*;

verus! {

/// The order in which entries leave the open list: by priority, and among equal
/// priorities by point index.
pub open spec fn entry_le(x: (u128, usize), y: (u128, usize)) -> bool {
    x.0 < y.0 || (x.0 == y.0 && x.1 <= y.1)
}

/// The place above place `i` in the heap.
spec fn parent(i: int) -> int {
    (i - 1) / 2
}

/// Every entry but the first is no less than the entry above it.
spec fn ordered(s: Seq<(u128, usize)>) -> bool {
    forall|i: int| 1 <= i < s.len() ==> entry_le(s[parent(i)], #[trigger] s[i])
}

/// The heap is in order but for the entry at `i`, which may be less than the entry
/// above it.
spec fn ordered_but_above(s: Seq<(u128, usize)>, i: int) -> bool {
    &&& forall|j: int| 1 <= j < s.len() && j != i ==> entry_le(s[parent(j)], #[trigger] s[j])
    &&& forall|c: int|
        1 <= i && 1 <= c < s.len() && parent(c) == i ==> entry_le(s[parent(i)], #[trigger] s[c])
}

/// The heap is in order but for the entry at `i`, which may be greater than the
/// entries below it.
spec fn ordered_but_below(s: Seq<(u128, usize)>, i: int) -> bool {
    &&& forall|j: int|
        1 <= j < s.len() && parent(j) != i ==> entry_le(s[parent(j)], #[trigger] s[j])
    &&& forall|c: int|
        1 <= i && 1 <= c < s.len() && parent(c) == i ==> entry_le(s[parent(i)], #[trigger] s[c])
}

/// The sequence with the entries at `i` and `j` exchanged.
spec fn swapped(s: Seq<(u128, usize)>, i: int, j: int) -> Seq<(u128, usize)> {
    s.update(i, s[j]).update(j, s[i])
}

proof fn lemma_swapped_bag(s: Seq<(u128, usize)>, i: int, j: int)
    requires
        0 <= i < s.len(),
        0 <= j < s.len(),
    ensures
        swapped(s, i, j).to_multiset() == s.to_multiset(),
{
    broadcast use group_to_multiset_ensures;
    broadcast use group_multiset_axioms;

    let mid = s.update(i, s[j]);
    to_multiset_update(s, i, s[j]);
    to_multiset_update(mid, j, s[i]);
    assert(s.contains(s[i]));
    assert(s.contains(s[j]));
    assert(swapped(s, i, j).to_multiset() =~= s.to_multiset());
}

proof fn lemma_first_is_least(s: Seq<(u128, usize)>, i: int)
    requires
        ordered(s),
        0 <= i < s.len(),
    ensures
        entry_le(s[0], s[i]),
    decreases i,
{
    if i > 0 {
        lemma_first_is_least(s, parent(i));
    }
}

fn less(x: (u128, usize), y: (u128, usize)) -> (lt: bool)
    ensures
        lt == !entry_le(y, x),
{
    x.0 < y.0 || (x.0 == y.0 && x.1 < y.1)
}

fn exchange(v: &mut Vec<(u128, usize)>, i: usize, j: usize)
    requires
        i < old(v)@.len(),
        j < old(v)@.len(),
    ensures
        final(v)@ == swapped(old(v)@, i as int, j as int),
        final(v)@.to_multiset() == old(v)@.to_multiset(),
{
    let a = v[i];
    let b = v[j];
    v[i] = b;
    v[j] = a;
    proof {
        lemma_swapped_bag(old(v)@, i as int, j as int);
    }
}

fn sift_up(v: &mut Vec<(u128, usize)>, start: usize)
    requires
        start < old(v)@.len(),
        ordered_but_above(old(v)@, start as int),
    ensures
        ordered(final(v)@),
        final(v)@.to_multiset() == old(v)@.to_multiset(),
{
    let mut i: usize = start;
    while i > 0
        invariant
            i < v@.len(),
            ordered_but_above(v@, i as int),
            v@.to_multiset() == old(v)@.to_multiset(),
        ensures
            ordered(v@),
            v@.to_multiset() == old(v)@.to_multiset(),
        decreases i,
    {
        let up: usize = (i - 1) / 2;
        if !less(v[i], v[up]) {
            break ;
        }
        let ghost s = v@;
        exchange(v, i, up);
        proof {
            let t = v@;
            assert forall|j: int| 1 <= j < t.len() && j != up implies entry_le(
                t[parent(j)],
                #[trigger] t[j],
            ) by {
                if j == i {
                } else if parent(j) == up {
                    assert(entry_le(s[parent(j)], s[j]));
                } else if parent(j) == i {
                    assert(entry_le(s[parent(i as int)], s[j]));
                } else {
                    assert(entry_le(s[parent(j)], s[j]));
                }
            }
            assert forall|c: int|
                1 <= up && 1 <= c < t.len() && parent(c) == up implies entry_le(
                t[parent(up as int)],
                #[trigger] t[c],
            ) by {
                assert(entry_le(s[parent(up as int)], s[up as int]));
                if c != i {
                    assert(entry_le(s[parent(c)], s[c]));
                }
            }
        }
        i = up;
    }
}

fn sift_down(v: &mut Vec<(u128, usize)>)
    requires
        old(v)@.len() > 0,
        ordered_but_below(old(v)@, 0),
    ensures
        ordered(final(v)@),
        final(v)@.to_multiset() == old(v)@.to_multiset(),
{
    let n: usize = v.len();
    let mut i: usize = 0;
    while i < n / 2
        invariant
            n == v@.len(),
            i < n,
            ordered_but_below(v@, i as int),
            v@.to_multiset() == old(v)@.to_multiset(),
        ensures
            ordered(v@),
            v@.to_multiset() == old(v)@.to_multiset(),
        decreases n - i,
    {
        let left: usize = 2 * i + 1;
        let right: usize = left + 1;
        let mut least: usize = left;
        if right < n && less(v[right], v[left]) {
            least = right;
        }
        let ghost s = v@;
        proof {
            assert(parent(left as int) == i);
            assert(parent(right as int) == i);
            assert forall|j: int| 1 <= j < n && parent(j) == i implies j == left || j == right by {}
        }
        if !less(v[least], v[i]) {
            proof {
                assert forall|j: int| 1 <= j < s.len() implies entry_le(
                    s[parent(j)],
                    #[trigger] s[j],
                ) by {
                    if parent(j) == i {
                        assert(j == left || j == right);
                    }
                }
            }
            break ;
        }
        exchange(v, i, least);
        proof {
            let t = v@;
            assert forall|j: int| 1 <= j < t.len() && parent(j) != least implies entry_le(
                t[parent(j)],
                #[trigger] t[j],
            ) by {
                if j == least {
                } else if parent(j) == i {
                    assert(j == left || j == right);
                } else if j == i {
                    assert(entry_le(s[parent(i as int)], s[least as int]));
                } else {
                    assert(entry_le(s[parent(j)], s[j]));
                }
            }
            assert forall|c: int| 1 <= c < t.len() && parent(c) == least implies entry_le(
                t[parent(least as int)],
                #[trigger] t[c],
            ) by {
                assert(entry_le(s[parent(c)], s[c]));
            }
        }
        i = least;
    }
    proof {
        if i >= n / 2 {
            assert forall|j: int| 1 <= j < v@.len() implies entry_le(
                v@[parent(j)],
                #[trigger] v@[j],
            ) by {
                assert(parent(j) != i);
            }
        }
    }
}

/// A min-priority queue of (priority, point) entries. An entry may occur several times.
#[derive(Debug)]
pub struct Frontier {
    entries: Vec<(u128, usize)>,
}

impl View for Frontier {
    type V = Multiset<(u128, usize)>;

    closed spec fn view(&self) -> Multiset<(u128, usize)> {
        self.entries@.to_multiset()
    }
}

impl Frontier {
    /// The entries are in heap order.
    pub closed spec fn wf(&self) -> bool {
        ordered(self.entries@)
    }

    /// An empty queue.
    pub fn new() -> (queue: Frontier)
        ensures
            queue.wf(),
            queue@ == Multiset::<(u128, usize)>::empty(),
    {
        let queue = Frontier { entries: Vec::new() };
        proof {
            broadcast use group_to_multiset_ensures;

            assert(queue.entries@.to_multiset().len() == 0);
            assert(queue@ =~= Multiset::<(u128, usize)>::empty()) by {
                assert forall|e: (u128, usize)| queue@.count(e) == 0 by {
                    if queue@.count(e) > 0 {
                        assert(queue.entries@.contains(e));
                    }
                }
            }
        }
        queue
    }

    /// The number of entries.
    pub fn len(&self) -> (n: usize)
        ensures
            n == self@.len(),
    {
        proof {
            broadcast use group_to_multiset_ensures;

        }
        self.entries.len()
    }

    /// Adds the entry of `point` with `priority`.
    pub fn push(&mut self, priority: u128, point: usize)
        requires
            old(self).wf(),
        ensures
            final(self).wf(),
            final(self)@ == old(self)@.insert((priority, point)),
    {
        proof {
            broadcast use group_to_multiset_ensures;

        }
        let ghost s = self.entries@;
        self.entries.push((priority, point));
        let last: usize = self.entries.len() - 1;
        proof {
            let t = self.entries@;
            assert forall|j: int| 1 <= j < t.len() && j != last implies entry_le(
                t[parent(j)],
                #[trigger] t[j],
            ) by {
                assert(entry_le(s[parent(j)], s[j]));
            }
        }
        sift_up(&mut self.entries, last);
    }

    /// Takes the least entry out, if there is any.
    pub fn pop(&mut self) -> (least: Option<(u128, usize)>)
        requires
            old(self).wf(),
        ensures
            final(self).wf(),
            match least {
                Some(e) => {
                    &&& old(self)@.count(e) > 0
                    &&& final(self)@ == old(self)@.remove(e)
                    &&& forall|x: (u128, usize)| old(self)@.count(x) > 0 ==> entry_le(e, x)
                },
                None => old(self)@.len() == 0 && final(self)@ == old(self)@,
            },
    {
        proof {
            broadcast use group_to_multiset_ensures;

        }
        let ghost s = self.entries@;
        let last = match self.entries.pop() {
            Some(last) => last,
            None => {
                return None;
            },
        };
        let ghost init = self.entries@;
        let top = if self.entries.len() > 0 {
            let top = self.entries[0];
            self.entries[0] = last;
            proof {
                broadcast use group_multiset_axioms;

                let t = self.entries@;
                assert(init =~= s.remove(s.len() - 1));
                to_multiset_update(init, 0, last);
                assert(s.contains(last)) by {
                    assert(s[s.len() - 1] == last);
                }
                assert(s.contains(top)) by {
                    assert(s[0] == top);
                }
                assert(t.to_multiset() =~= s.to_multiset().remove(top));
                assert forall|j: int| 1 <= j < t.len() && parent(j) != 0 implies entry_le(
                    t[parent(j)],
                    #[trigger] t[j],
                ) by {
                    assert(entry_le(s[parent(j)], s[j]));
                }
            }
            sift_down(&mut self.entries);
            top
        } else {
            proof {
                assert(init =~= s.remove(s.len() - 1));
            }
            last
        };
        proof {
            assert(s[0] == top);
            assert(s.contains(top));
            assert forall|x: (u128, usize)| s.to_multiset().count(x) > 0 implies entry_le(
                top,
                x,
            ) by {
                assert(s.contains(x));
                let j = choose|j: int| 0 <= j < s.len() && s[j] == x;
                lemma_first_is_least(s, j);
            }
        }
        Some(top)
    }
}

} // verus!
