//! A priority queue that hands out its lowest-ranked item first: a binary heap in a vector.

use vstd::multiset::Multiset;
use vstd::prelude::*;

verus! {

broadcast use vstd::seq_lib::group_to_multiset_ensures;

/// What the queue holds: a key and, to tell items of one key apart, the number of an AS.
pub type Rank = (u128, u32);

/// Whether `a` ranks above `b`: by the larger key, and between equal keys by the larger
/// number.
pub open spec fn outranks(a: Rank, b: Rank) -> bool {
    a.0 > b.0 || (a.0 == b.0 && a.1 > b.1)
}

/// Tells whether `a` ranks above `b`.
pub fn ranks_above(a: Rank, b: Rank) -> (above: bool)
    ensures
        above == outranks(a, b),
{
    a.0 > b.0 || (a.0 == b.0 && a.1 > b.1)
}

/// Whether no item of `s` ranks above the item below it in the tree, but for the item at
/// `hole`, of which nothing is asked.
pub open spec fn ordered_but_below(s: Seq<Rank>, hole: int) -> bool {
    forall|i: int| 0 < i < s.len() && i != hole ==> !outranks(s[(i - 1) / 2], #[trigger] s[i])
}

/// Whether no item of `s` ranks above the item below it in the tree, but for the items
/// right below `hole`, of which nothing is asked.
pub open spec fn ordered_but_above(s: Seq<Rank>, hole: int) -> bool {
    forall|i: int|
        0 < i < s.len() && (i - 1) / 2 != hole ==> !outranks(s[(i - 1) / 2], #[trigger] s[i])
}

/// Whether the item above `hole` ranks above none of the items right below `hole`.
pub open spec fn bridged(s: Seq<Rank>, hole: int) -> bool {
    hole > 0 ==> forall|c: int|
        0 < c < s.len() && (c - 1) / 2 == hole ==> !outranks(s[(hole - 1) / 2], #[trigger] s[c])
}

/// Whether `s` is a heap with the lowest-ranked item first: no item ranks above an item
/// below it in the tree.
pub open spec fn is_heap(s: Seq<Rank>) -> bool {
    forall|i: int| 0 < i < s.len() ==> !outranks(s[(i - 1) / 2], #[trigger] s[i])
}

/// Whether `s` runs from the highest rank down.
pub open spec fn descends(s: Seq<Rank>) -> bool {
    forall|i: int, j: int| 0 <= i < j < s.len() ==> !outranks(#[trigger] s[j], #[trigger] s[i])
}

/// The first item of a heap ranks above none of its items.
pub proof fn lemma_heap_first_is_lowest(s: Seq<Rank>, i: int)
    requires
        is_heap(s),
        0 <= i < s.len(),
    ensures
        !outranks(s[0], s[i]),
    decreases i,
{
    if i > 0 {
        lemma_heap_first_is_lowest(s, (i - 1) / 2);
        assert(!outranks(s[(i - 1) / 2], s[i]));
    }
}

/// A priority queue of ranks that hands out the lowest first.
pub struct LowestFirst {
    items: Vec<Rank>,
}

impl View for LowestFirst {
    type V = Multiset<Rank>;

    closed spec fn view(&self) -> Multiset<Rank> {
        self.items@.to_multiset()
    }
}

/// Lets the item at `start` rise until the item above it does not rank above it.
fn sift_up(items: &mut Vec<Rank>, start: usize)
    requires
        start < old(items)@.len(),
        ordered_but_below(old(items)@, start as int),
        bridged(old(items)@, start as int),
    ensures
        is_heap(final(items)@),
        final(items)@.to_multiset() == old(items)@.to_multiset(),
        final(items)@.len() == old(items)@.len(),
{
    let mut pos: usize = start;
    while pos > 0
        invariant
            pos < items@.len(),
            items@.len() == old(items)@.len(),
            items@.to_multiset() == old(items)@.to_multiset(),
            ordered_but_below(items@, pos as int),
            bridged(items@, pos as int),
        ensures
            is_heap(items@),
            items@.len() == old(items)@.len(),
            items@.to_multiset() == old(items)@.to_multiset(),
        decreases pos,
    {
        let above: usize = (pos - 1) / 2;
        let child = items[pos];
        let parent = items[above];
        if !ranks_above(parent, child) {
            break;
        }
        let ghost before = items@;
        items.set(pos, parent);
        items.set(above, child);
        proof {
            lemma_swap_keeps_items(before, pos as int, above as int);
            assert(items@ == before.update(pos as int, parent).update(above as int, child));
            assert forall|i: int| 0 < i < items@.len() && i != above implies !outranks(
                items@[(i - 1) / 2],
                #[trigger] items@[i],
            ) by {
                let up = (i - 1) / 2;
                if i == pos {
                    // the item now at `pos` ranked above the one now above it
                } else if up == above {
                    assert(!outranks(before[above as int], before[i]));
                } else if up == pos {
                    assert(!outranks(before[above as int], before[i]));
                } else {
                    assert(!outranks(before[up], before[i]));
                }
            }
            if above > 0 {
                let top = (above - 1) / 2;
                assert(!outranks(before[top], before[above as int]));
                assert forall|c: int| 0 < c < items@.len() && (c - 1) / 2 == above implies !outranks(
                    items@[top],
                    #[trigger] items@[c],
                ) by {
                    if c != pos {
                        assert(!outranks(before[above as int], before[c]));
                    }
                }
            }
        }
        pos = above;
    }
}

/// Swapping two items of a sequence keeps what it holds.
pub proof fn lemma_swap_keeps_items(s: Seq<Rank>, i: int, j: int)
    requires
        0 <= i < s.len(),
        0 <= j < s.len(),
    ensures
        s.update(i, s[j]).update(j, s[i]).to_multiset() == s.to_multiset(),
{
    let mid = s.update(i, s[j]);
    vstd::seq_lib::to_multiset_update(s, i, s[j]);
    vstd::seq_lib::to_multiset_update(mid, j, s[i]);
    assert(mid[j] == s[j]);
    assert(s.to_multiset().insert(s[j]).remove(s[i]).insert(s[i]).remove(s[j])
        =~= s.to_multiset());
}

/// Lets the item at `start` sink until it ranks above none of the items right below it.
fn sift_down(items: &mut Vec<Rank>, start: usize)
    requires
        start < old(items)@.len(),
        ordered_but_above(old(items)@, start as int),
        bridged(old(items)@, start as int),
    ensures
        is_heap(final(items)@),
        final(items)@.to_multiset() == old(items)@.to_multiset(),
        final(items)@.len() == old(items)@.len(),
{
    let len: usize = items.len();
    let mut pos: usize = start;
    loop
        invariant
            pos < len,
            len == items@.len(),
            items@.len() == old(items)@.len(),
            items@.to_multiset() == old(items)@.to_multiset(),
            ordered_but_above(items@, pos as int),
            bridged(items@, pos as int),
        ensures
            is_heap(items@),
            items@.len() == old(items)@.len(),
            items@.to_multiset() == old(items)@.to_multiset(),
        decreases len - pos,
    {
        if pos >= len / 2 {
            // no item is below `pos`
            assert forall|i: int| 0 < i < items@.len() implies !outranks(
                items@[(i - 1) / 2],
                #[trigger] items@[i],
            ) by {
                assert((i - 1) / 2 != pos);
            }
            break;
        }
        let left: usize = 2 * pos + 1;
        let right: usize = left + 1;
        let lower: usize = if right < len && ranks_above(items[left], items[right]) {
            right
        } else {
            left
        };
        let parent = items[pos];
        let child = items[lower];
        if !ranks_above(parent, child) {
            assert forall|i: int| 0 < i < items@.len() implies !outranks(
                items@[(i - 1) / 2],
                #[trigger] items@[i],
            ) by {
                if (i - 1) / 2 == pos {
                    assert(i == left || i == right);
                }
            }
            break;
        }
        let ghost before = items@;
        items.set(pos, child);
        items.set(lower, parent);
        proof {
            lemma_swap_keeps_items(before, pos as int, lower as int);
            assert(items@ == before.update(pos as int, child).update(lower as int, parent));
            assert forall|i: int| 0 < i < items@.len() && (i - 1) / 2 != lower implies !outranks(
                items@[(i - 1) / 2],
                #[trigger] items@[i],
            ) by {
                let up = (i - 1) / 2;
                if up == pos {
                    assert(i == left || i == right);
                } else if i == pos {
                    assert(!outranks(before[up], before[lower as int]));
                } else {
                    assert(!outranks(before[up], before[i]));
                }
            }
            assert forall|c: int| 0 < c < items@.len() && (c - 1) / 2 == lower implies !outranks(
                items@[pos as int],
                #[trigger] items@[c],
            ) by {
                assert(!outranks(before[lower as int], before[c]));
            }
        }
        pos = lower;
    }
}

impl LowestFirst {
    /// The queue keeps the order that lets it find its lowest item.
    pub closed spec fn wf(&self) -> bool {
        is_heap(self.items@)
    }

    /// The number of items in the queue.
    pub open spec fn spec_len(&self) -> nat {
        self@.len()
    }

    /// An empty queue.
    pub fn new() -> (queue: LowestFirst)
        ensures
            queue.wf(),
            queue@ == Multiset::<Rank>::empty(),
            queue.spec_len() == 0,
    {
        LowestFirst { items: Vec::new() }
    }

    pub fn len(&self) -> (len: usize)
        ensures
            len == self.spec_len(),
            len == self@.len(),
    {
        self.items.len()
    }

    /// Adds `item` to the queue.
    pub fn push(&mut self, item: Rank)
        requires
            old(self).wf(),
        ensures
            final(self).wf(),
            final(self)@ == old(self)@.insert(item),
            final(self).spec_len() == old(self).spec_len() + 1,
    {
        let ghost before = self.items@;
        self.items.push(item);
        let last = self.items.len() - 1;
        assert(ordered_but_below(self.items@, last as int)) by {
            assert forall|i: int| 0 < i < self.items@.len() && i != last implies !outranks(
                self.items@[(i - 1) / 2],
                #[trigger] self.items@[i],
            ) by {
                assert(!outranks(before[(i - 1) / 2], before[i]));
            }
        }
        sift_up(&mut self.items, last);
    }

    /// Takes the lowest-ranked item out of the queue; `None` where the queue is empty.
    pub fn pop(&mut self) -> (lowest: Option<Rank>)
        requires
            old(self).wf(),
        ensures
            final(self).wf(),
            match lowest {
                Some(item) => {
                    &&& old(self)@.count(item) > 0
                    &&& final(self)@ == old(self)@.remove(item)
                    &&& final(self).spec_len() == old(self).spec_len() - 1
                    &&& forall|other: Rank| old(self)@.count(other) > 0 ==> !outranks(item, other)
                },
                None => {
                    &&& old(self).spec_len() == 0
                    &&& final(self)@ == old(self)@
                    &&& final(self).spec_len() == 0
                },
            },
    {
        if self.items.len() == 0 {
            return None;
        }
        let ghost before = self.items@;
        let lowest = self.items.swap_remove(0);
        proof {
            let last = before.len() - 1;
            assert forall|other: Rank| before.to_multiset().count(other) > 0 implies !outranks(
                lowest,
                other,
            ) by {
                let i = choose|i: int| 0 <= i < before.len() && before[i] == other;
                lemma_heap_first_is_lowest(before, i);
            }
            assert(self.items@ == before.update(0, before[last]).take(last));
            if last > 0 {
                vstd::seq_lib::to_multiset_update(before, 0, before[last]);
                let moved = before.update(0, before[last]);
                assert(moved.take(last) =~= moved.remove(last));
                vstd::seq_lib::to_multiset_remove(moved, last);
                assert(self.items@.to_multiset() =~= before.to_multiset().remove(lowest));
            } else {
                assert(self.items@ =~= before.remove(0));
                vstd::seq_lib::to_multiset_remove(before, 0);
            }
        }
        if self.items.len() > 0 {
            assert forall|i: int| 0 < i < self.items@.len() && (i - 1) / 2 != 0 implies !outranks(
                self.items@[(i - 1) / 2],
                #[trigger] self.items@[i],
            ) by {
                assert(!outranks(before[(i - 1) / 2], before[i]));
            }
            sift_down(&mut self.items, 0);
        }
        Some(lowest)
    }

    /// All the items of the queue, from the highest rank down.
    pub fn into_sorted_vec(self) -> (sorted: Vec<Rank>)
        requires
            self.wf(),
        ensures
            sorted@.to_multiset() == self@,
            descends(sorted@),
    {
        let ghost all = self@;
        let mut queue = self;
        let mut rising: Vec<Rank> = Vec::new();
        while queue.len() > 0
            invariant
                queue.wf(),
                rising@.to_multiset().add(queue@) == all,
                forall|i: int, j: int|
                    0 <= i < j < rising@.len() ==> !outranks(#[trigger] rising@[i], #[trigger] rising@[j]),
                forall|i: int, other: Rank|
                    #![trigger rising@[i], queue@.count(other)]
                    0 <= i < rising@.len() && queue@.count(other) > 0 ==> !outranks(
                        rising@[i],
                        other,
                    ),
            decreases queue.spec_len(),
        {
            let ghost held = queue@;
            let ghost so_far = rising@;
            let lowest = queue.pop().unwrap();
            rising.push(lowest);
            proof {
                assert(rising@.to_multiset().add(queue@) =~= so_far.to_multiset().add(held));
                assert forall|i: int, other: Rank|
                    #![trigger rising@[i], queue@.count(other)]
                    0 <= i < rising@.len() && queue@.count(other) > 0 implies !outranks(
                    rising@[i],
                    other,
                ) by {
                    assert(held.count(other) > 0);
                    if i < so_far.len() {
                        assert(rising@[i] == so_far[i]);
                    }
                }
            }
        }
        assert(rising@.to_multiset() =~= all) by {
            assert(queue@.len() == 0);
            assert(queue@ =~= Multiset::<Rank>::empty());
        }
        let mut sorted: Vec<Rank> = Vec::new();
        let mut left: usize = rising.len();
        while left > 0
            invariant
                left <= rising@.len(),
                sorted@.len() == rising@.len() - left,
                forall|k: int|
                    0 <= k < sorted@.len() ==> #[trigger] sorted@[k] == rising@[rising@.len() - 1 - k],
            decreases left,
        {
            left -= 1;
            sorted.push(rising[left]);
        }
        proof {
            assert(sorted@ =~= rising@.reverse());
            rising@.lemma_reverse_to_multiset();
        }
        sorted
    }
}

} // verus!
