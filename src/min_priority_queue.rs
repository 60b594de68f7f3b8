use vstd::prelude::*;
use vstd::std_specs::cmp::PartialEqSpec;

verus! {

/// A value with a priority: a smaller priority is served first.
pub trait Prioritized: Sized {
    spec fn priority(&self) -> int;

    /// `self` is served strictly before `other`.
    fn precedes(&self, other: &Self) -> (r: bool)
        ensures
            r == (self.priority() < other.priority()),
    ;
}

/// The priorities along `s` never decrease.
pub open spec fn ordered<T: Prioritized>(s: Seq<T>) -> bool {
    forall|i: int, j: int| 0 <= i < j < s.len() ==> #[trigger] s[i].priority() <= #[trigger] s[j].priority()
}

/// Where a new item of priority `p` joins `s`: after every item whose
/// priority is not greater than `p`.
pub open spec fn slot<T: Prioritized>(s: Seq<T>, p: int) -> int
    decreases s.len(),
{
    if s.len() == 0 {
        0
    } else if s.last().priority() <= p {
        s.len() as int
    } else {
        slot(s.drop_last(), p)
    }
}

/// A queue that hands out its items by priority, the smallest first, and
/// items of equal priority in the order in which they came in.
pub struct MinPriorityQueue<T> {
    data: Vec<T>,
}

impl<T: Prioritized> View for MinPriorityQueue<T> {
    type V = Seq<T>;

    /// The items in the order in which they will leave.
    closed spec fn view(&self) -> Seq<T> {
        self.data@
    }
}

impl<T: Prioritized + PartialEq> MinPriorityQueue<T> {
    pub closed spec fn wf(&self) -> bool {
        ordered(self.data@)
    }

    pub fn new() -> (r: MinPriorityQueue<T>)
        ensures
            r.wf(),
            r@ == Seq::<T>::empty(),
    {
        MinPriorityQueue { data: Vec::new() }
    }

    pub fn is_empty(&self) -> (r: bool)
        ensures
            r == (self@.len() == 0),
    {
        self.data.len() == 0
    }

    /// The items, in the order in which they will leave.
    pub fn get_data(&self) -> (r: &Vec<T>)
        ensures
            r@ == self@,
    {
        &self.data
    }

    /// Adds `item` after every item whose priority is not greater than its own.
    pub fn push(&mut self, item: T)
        requires
            old(self).wf(),
        ensures
            final(self).wf(),
            final(self)@ == old(self)@.insert(slot(old(self)@, item.priority()), item),
    {
        let ghost p = item.priority();
        let mut i: usize = self.data.len();
        assert(self.data@.take(i as int) =~= self.data@);
        while i > 0 && item.precedes(&self.data[i - 1])
            invariant
                i <= self.data@.len(),
                ordered(self.data@),
                forall|k: int| i <= k < self.data@.len() ==> p < #[trigger] self.data@[k].priority(),
                slot(self.data@, p) == slot(self.data@.take(i as int), p),
                p == item.priority(),
            decreases i,
        {
            proof {
                let s = self.data@.take(i as int);
                assert(s.drop_last() =~= self.data@.take(i - 1));
            }
            i = i - 1;
        }
        proof {
            let s = self.data@.take(i as int);
            if i > 0 {
                assert(s.last() == self.data@[i - 1]);
            }
        }
        self.data.insert(i, item);
        assert forall|a: int, b: int| 0 <= a < b < self.data@.len() implies
            #[trigger] self.data@[a].priority() <= #[trigger] self.data@[b].priority() by {
            let old_data = old(self)@;
            if i > 0 && a < i {
                assert(old_data[a].priority() <= old_data[i - 1].priority());
            }
        }
    }

    /// The item that leaves next, if any.
    pub fn peek(&self) -> (r: Option<&T>)
        ensures
            self@.len() == 0 ==> r.is_none(),
            self@.len() > 0 ==> r == Some(&self@[0]),
    {
        if self.is_empty() {
            None
        } else {
            Some(&self.data[0])
        }
    }

    /// Removes and returns the item that leaves next, if any.
    pub fn pop(&mut self) -> (r: Option<T>)
        requires
            old(self).wf(),
        ensures
            final(self).wf(),
            old(self)@.len() == 0 ==> r.is_none() && final(self)@ == old(self)@,
            old(self)@.len() > 0 ==> r == Some(old(self)@[0]) && final(self)@ == old(self)@.drop_first(),
    {
        if self.is_empty() {
            None
        } else {
            let first = self.data.remove(0);
                assert(self.data@ =~= old(self)@.drop_first());
            Some(first)
        }
    }

    /// Some item equals `item`.
    pub fn contains(&self, item: &T) -> (r: bool)
        requires
            T::obeys_eq_spec(),
        ensures
            r == exists|k: int| 0 <= k < self@.len() && (#[trigger] self@[k]).eq_spec(item),
    {
        let mut i: usize = 0;
        while i < self.data.len()
            invariant
                T::obeys_eq_spec(),
                i <= self.data@.len(),
                forall|k: int| 0 <= k < i ==> !(#[trigger] self.data@[k]).eq_spec(item),
            decreases self.data@.len() - i,
        {
            if self.data[i] == *item {
                assert(self@[i as int].eq_spec(item));
                return true;
            }
            i = i + 1;
        }
        false
    }
}

/// A new item joins after every item of priority not greater than its own,
/// and before every item of greater priority.
pub proof fn lemma_slot<T: Prioritized>(s: Seq<T>, p: int)
    requires
        ordered(s),
    ensures
        0 <= slot(s, p) <= s.len(),
        forall|k: int| 0 <= k < slot(s, p) ==> #[trigger] s[k].priority() <= p,
        forall|k: int| slot(s, p) <= k < s.len() ==> p < #[trigger] s[k].priority(),
    decreases s.len(),
{
    if s.len() > 0 {
        if s.last().priority() > p {
            let t = s.drop_last();
            assert(ordered(t));
            lemma_slot(t, p);
            assert forall|k: int| slot(s, p) <= k < s.len() implies p < #[trigger] s[k].priority() by {
                if k < t.len() {
                    assert(t[k] == s[k]);
                }
            }
            assert forall|k: int| 0 <= k < slot(s, p) implies #[trigger] s[k].priority() <= p by {
                assert(t[k] == s[k]);
            }
        } else {
            assert forall|k: int| 0 <= k < slot(s, p) implies #[trigger] s[k].priority() <= p by {
                if k < s.len() - 1 {
                    assert(s[k].priority() <= s[s.len() - 1].priority());
                }
            }
        }
    }
}

/// Inserting at the slot keeps a sequence ordered.
pub proof fn lemma_insert_ordered<T: Prioritized>(s: Seq<T>, x: T)
    requires
        ordered(s),
    ensures
        ordered(s.insert(slot(s, x.priority()), x)),
{
    lemma_slot(s, x.priority());
    let t = s.insert(slot(s, x.priority()), x);
    assert forall|i: int, j: int| 0 <= i < j < t.len() implies
        #[trigger] t[i].priority() <= #[trigger] t[j].priority() by {
        let k = slot(s, x.priority());
        if i < k && j > k {
            assert(s[i].priority() <= s[j - 1].priority());
        }
    }
}

impl<T: Prioritized + PartialEq> MinPriorityQueue<T> {
    /// Whatever pushes and pops came before, each item is served no later
    /// than the items stored after it, and in particular no later than its
    /// children when the items are read as a binary heap.
    pub proof fn lemma_heap_order(&self)
        requires
            self.wf(),
        ensures
            ordered(self@),
            forall|i: int|
                0 <= i && 2 * i + 1 < self@.len() ==> #[trigger] self@[i].priority()
                    <= self@[2 * i + 1].priority(),
            forall|i: int|
                0 <= i && 2 * i + 2 < self@.len() ==> #[trigger] self@[i].priority()
                    <= self@[2 * i + 2].priority(),
    {
    }
}

/// What a new queue holds after `xs` was pushed onto it, item by item.
pub open spec fn filled<T: Prioritized>(xs: Seq<T>) -> Seq<T>
    decreases xs.len(),
{
    if xs.len() == 0 {
        seq![]
    } else {
        let s = filled(xs.drop_last());
        s.insert(slot(s, xs.last().priority()), xs.last())
    }
}

/// Where the `i`-th pushed item of `xs` stands in `filled(xs)`.
pub open spec fn place<T: Prioritized>(xs: Seq<T>, i: int) -> int
    decreases xs.len(),
{
    if xs.len() == 0 {
        0
    } else {
        let s = filled(xs.drop_last());
        let k = slot(s, xs.last().priority());
        if i == xs.len() - 1 {
            k
        } else if place(xs.drop_last(), i) < k {
            place(xs.drop_last(), i)
        } else {
            place(xs.drop_last(), i) + 1
        }
    }
}

/// Draining a queue filled with `xs` hands out every item of `xs` once, in
/// order of priority, and two items of equal priority in the order in which
/// they were pushed.
pub proof fn lemma_drain_order<T: Prioritized>(xs: Seq<T>)
    ensures
        filled(xs).len() == xs.len(),
        ordered(filled(xs)),
        forall|i: int| 0 <= i < xs.len() ==> 0 <= #[trigger] place(xs, i) < xs.len(),
        forall|i: int| 0 <= i < xs.len() ==> filled(xs)[#[trigger] place(xs, i)] == xs[i],
        forall|i: int, j: int|
            0 <= i < j < xs.len() ==> #[trigger] place(xs, i) != #[trigger] place(xs, j),
        forall|i: int, j: int|
            0 <= i < j < xs.len() && xs[i].priority() == xs[j].priority() ==> #[trigger] place(xs, i)
                < #[trigger] place(xs, j),
    decreases xs.len(),
{
    if xs.len() > 0 {
        let ys = xs.drop_last();
        let x = xs.last();
        let n = xs.len() - 1;
        lemma_drain_order(ys);
        let s = filled(ys);
        let k = slot(s, x.priority());
        lemma_slot(s, x.priority());
        lemma_insert_ordered(s, x);
        let t = filled(xs);
        assert(t == s.insert(k, x));
        assert forall|i: int| 0 <= i < xs.len() implies 0 <= #[trigger] place(xs, i) < xs.len()
            && t[place(xs, i)] == xs[i] by {
            if i < n {
                assert(ys[i] == xs[i]);
                assert(place(ys, i) < ys.len());
            }
        }
        assert forall|i: int, j: int| 0 <= i < j < xs.len() implies #[trigger] place(xs, i)
            != #[trigger] place(xs, j) by {
            if j < n {
                assert(place(ys, i) != place(ys, j));
            }
        }
        assert forall|i: int, j: int|
            0 <= i < j < xs.len() && xs[i].priority() == xs[j].priority() implies #[trigger] place(
                xs,
                i,
            ) < #[trigger] place(xs, j) by {
            assert(ys[i] == xs[i]);
            if j < n {
                assert(ys[j] == xs[j]);
                assert(place(ys, i) < place(ys, j));
            } else {
                assert(s[place(ys, i)] == ys[i]);
                assert(place(ys, i) < k);
            }
        }
    }
}

} // verus!
