use vstd::multiset::Multiset;
use vstd::prelude::*;

verus! {

/// A container of pending work items.
///
/// The contract speaks of the items as a multiset: a queue may hand its items out in
/// any order, but it loses none and invents none.
pub trait Queue<T> {
    /// The items the queue holds.
    spec fn contents(&self) -> Multiset<T>;

    fn new() -> (queue: Self) where Self: Sized
        ensures
            queue.contents() =~= Multiset::empty(),
    ;

    fn enqueue(&mut self, elem: T)
        ensures
            final(self).contents() =~= old(self).contents().insert(elem),
    ;

    fn dequeue(&mut self) -> (elem: Option<T>)
        ensures
            elem is None <==> old(self).contents().len() == 0,
            elem is None ==> final(self).contents() =~= old(self).contents(),
            elem matches Some(e) ==> old(self).contents().contains(e) && final(self).contents()
                =~= old(self).contents().remove(e),
    ;

    fn len(&self) -> (n: usize)
        ensures
            n == self.contents().len(),
    ;
}

/// A queue kept in a vector.
///
/// Items are taken from the end where they were put, so the item put in last comes
/// out first.
pub struct FIFOQueue<T> {
    data: Vec<T>,
}

impl<T> FIFOQueue<T> {
    /// The items in the order in which they were put in (the last one comes out next).
    pub closed spec fn items(&self) -> Seq<T> {
        self.data@
    }
}

impl<T> Queue<T> for FIFOQueue<T> {
    open spec fn contents(&self) -> Multiset<T> {
        self.items().to_multiset()
    }

    fn new() -> (queue: Self)
        ensures
            queue.items() =~= Seq::<T>::empty(),
    {
        let queue = FIFOQueue { data: Vec::new() };
        proof {
            broadcast use vstd::seq_lib::group_to_multiset_ensures;
            broadcast use vstd::multiset::group_multiset_axioms;
            assert(queue.items().to_multiset().len() == 0);
        }
        queue
    }

    fn enqueue(&mut self, elem: T)
        ensures
            final(self).items() =~= old(self).items().push(elem),
    {
        self.data.push(elem);
        proof {
            broadcast use vstd::seq_lib::group_to_multiset_ensures;
        }
    }

    fn dequeue(&mut self) -> (elem: Option<T>)
        ensures
            old(self).items().len() == 0 ==> elem is None && final(self).items() =~= old(self).items(),
            old(self).items().len() > 0 ==> elem == Some(old(self).items().last()) && final(self).items()
                =~= old(self).items().drop_last(),
    {
        let elem = self.data.pop();
        proof {
            broadcast use vstd::seq_lib::group_to_multiset_ensures;
            let s = old(self).items();
            if s.len() > 0 {
                assert(s =~= s.drop_last().push(s.last()));
            }
        }
        elem
    }

    fn len(&self) -> (n: usize)
        ensures
            n == self.items().len(),
    {
        proof {
            broadcast use vstd::seq_lib::group_to_multiset_ensures;
        }
        self.data.len()
    }
}

/// A call on a queue: putting an item in, or asking for one.
pub enum QueueCall<T> {
    Enqueue(T),
    Dequeue,
}

/// The items of a `FIFOQueue` that held `items`, after `calls` in turn.
pub open spec fn after_calls<T>(items: Seq<T>, calls: Seq<QueueCall<T>>) -> Seq<T>
    decreases calls.len(),
{
    if calls.len() == 0 {
        items
    } else {
        let before = after_calls(items, calls.drop_last());
        match calls.last() {
            QueueCall::Enqueue(x) => before.push(x),
            QueueCall::Dequeue => if before.len() > 0 {
                before.drop_last()
            } else {
                before
            },
        }
    }
}

/// The number of item-putting calls among `calls`.
pub open spec fn enqueues<T>(calls: Seq<QueueCall<T>>) -> nat
    decreases calls.len(),
{
    if calls.len() == 0 {
        0
    } else {
        enqueues(calls.drop_last()) + if calls.last() is Enqueue {
            1nat
        } else {
            0nat
        }
    }
}

/// The number of calls among `calls`, on a queue that held `items`, that asked for an item
/// and got one.
pub open spec fn successful_dequeues<T>(items: Seq<T>, calls: Seq<QueueCall<T>>) -> nat
    decreases calls.len(),
{
    if calls.len() == 0 {
        0
    } else {
        successful_dequeues(items, calls.drop_last()) + if calls.last() is Dequeue
            && after_calls(items, calls.drop_last()).len() > 0 {
            1nat
        } else {
            0nat
        }
    }
}

/// A `FIFOQueue` made empty holds, after any calls, as many items as were put in less as
/// many as were taken out: what `len` then returns.
pub proof fn lemma_len_counts_calls<T>(calls: Seq<QueueCall<T>>)
    ensures
        after_calls(Seq::<T>::empty(), calls).len() + successful_dequeues(Seq::<T>::empty(), calls)
            == enqueues(calls),
    decreases calls.len(),
{
    if calls.len() > 0 {
        lemma_len_counts_calls(calls.drop_last());
    }
}

} // verus!
