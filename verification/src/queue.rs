//! A first-in, first-out queue of byte buffers.
//!
//! A queue stands for the sequence of the buffers it holds, front first.
//! The operations are stated over that sequence, and so are the laws that
//! follow from them.

use std::collections::VecDeque;
use vstd::prelude::*;

verus! {

/// A queue of owned byte buffers. Buffers enter at the back and leave at
/// the front.
pub struct Queue {
    items: VecDeque<Vec<u8>>,
}

/// The buffer at the front of `held`, absent where nothing is held.
pub open spec fn front(held: Seq<Seq<u8>>) -> Option<Seq<u8>> {
    if held.len() > 0 {
        Some(held[0])
    } else {
        None
    }
}

/// What is held after `buf` has entered at the back.
pub open spec fn after_enqueue(held: Seq<Seq<u8>>, buf: Seq<u8>) -> Seq<Seq<u8>> {
    held.push(buf)
}

/// What is held after the front has left; nothing leaves an empty queue.
pub open spec fn after_dequeue(held: Seq<Seq<u8>>) -> Seq<Seq<u8>> {
    if held.len() > 0 {
        held.drop_first()
    } else {
        held
    }
}

/// What is held after the buffers of `bufs` have entered in order.
pub open spec fn after_enqueues(held: Seq<Seq<u8>>, bufs: Seq<Seq<u8>>) -> Seq<Seq<u8>>
    decreases bufs.len(),
{
    if bufs.len() == 0 {
        held
    } else {
        after_enqueue(after_enqueues(held, bufs.drop_last()), bufs.last())
    }
}

/// What is held after `count` removals at the front.
pub open spec fn after_dequeues(held: Seq<Seq<u8>>, count: nat) -> Seq<Seq<u8>>
    decreases count,
{
    if count == 0 {
        held
    } else {
        after_dequeue(after_dequeues(held, (count - 1) as nat))
    }
}

/// One request to a queue.
pub enum Request {
    /// A buffer enters at the back.
    Enqueue(Seq<u8>),
    /// The front leaves.
    Dequeue,
}

/// What is held after the requests of `requests` were served in order.
pub open spec fn after_requests(held: Seq<Seq<u8>>, requests: Seq<Request>) -> Seq<Seq<u8>>
    decreases requests.len(),
{
    if requests.len() == 0 {
        held
    } else {
        let earlier = after_requests(held, requests.drop_last());
        match requests.last() {
            Request::Enqueue(buf) => after_enqueue(earlier, buf),
            Request::Dequeue => after_dequeue(earlier),
        }
    }
}

/// How many of `requests` are enqueues.
pub open spec fn enqueues_in(requests: Seq<Request>) -> nat
    decreases requests.len(),
{
    if requests.len() == 0 {
        0
    } else {
        enqueues_in(requests.drop_last()) + if requests.last() is Enqueue {
            1nat
        } else {
            0nat
        }
    }
}

/// How many of `requests` are dequeues.
pub open spec fn dequeues_in(requests: Seq<Request>) -> nat
    decreases requests.len(),
{
    if requests.len() == 0 {
        0
    } else {
        dequeues_in(requests.drop_last()) + if requests.last() is Dequeue {
            1nat
        } else {
            0nat
        }
    }
}

/// No dequeue among `requests` meets an empty queue when they are served in
/// order from an empty queue: at every point there were at least as many
/// enqueues as dequeues.
pub open spec fn never_starved(requests: Seq<Request>) -> bool {
    forall|n: int|
        0 <= n <= requests.len() ==> dequeues_in(#[trigger] requests.take(n)) <= enqueues_in(
            requests.take(n),
        )
}

/// An enqueue leaves a queue that is not empty; a dequeue leaves an empty
/// one exactly when at most one buffer was held.
pub proof fn lemma_empty_and_not(held: Seq<Seq<u8>>, buf: Seq<u8>)
    ensures
        after_enqueue(held, buf).len() == held.len() + 1,
        after_dequeue(held).len() == 0 <==> held.len() <= 1,
{
}

/// Buffers enqueued in order are held in that order behind what was held.
pub proof fn lemma_enqueues_append(held: Seq<Seq<u8>>, bufs: Seq<Seq<u8>>)
    ensures
        after_enqueues(held, bufs) == held + bufs,
    decreases bufs.len(),
{
    if bufs.len() > 0 {
        lemma_enqueues_append(held, bufs.drop_last());
    }
}

/// Removals at the front take away the first `count` buffers, or all of
/// them where fewer are held.
pub proof fn lemma_dequeues_skip(held: Seq<Seq<u8>>, count: nat)
    ensures
        after_dequeues(held, count) == if count <= held.len() {
            held.skip(count as int)
        } else {
            Seq::empty()
        },
    decreases count,
{
    if count > 0 {
        lemma_dequeues_skip(held, (count - 1) as nat);
    }
}

/// First in, first out: after the buffers of `bufs` have entered an empty
/// queue in order, the dequeue that follows `k` earlier ones yields the
/// buffer that entered as number `k`, octet for octet.
pub proof fn lemma_first_in_first_out(bufs: Seq<Seq<u8>>, k: nat)
    requires
        k < bufs.len(),
    ensures
        front(after_dequeues(after_enqueues(Seq::empty(), bufs), k)) == Some(bufs[k as int]),
{
    lemma_enqueues_append(Seq::empty(), bufs);
    lemma_dequeues_skip(bufs, k);
}

/// After as many enqueues as `bufs` has buffers, and `count` dequeues after
/// them, an initially empty queue holds the difference of the two numbers,
/// and nothing where there were more dequeues than enqueues.
pub proof fn lemma_length_after_fill_and_drain(bufs: Seq<Seq<u8>>, count: nat)
    ensures
        after_dequeues(after_enqueues(Seq::empty(), bufs), count).len() == if count <= bufs.len() {
            bufs.len() - count
        } else {
            0
        },
{
    lemma_enqueues_append(Seq::empty(), bufs);
    lemma_dequeues_skip(bufs, count);
}

/// Served in any order in which no dequeue meets an empty queue, requests
/// to an initially empty queue leave as many buffers as there were enqueues
/// more than dequeues.
pub proof fn lemma_length_counts_requests(requests: Seq<Request>)
    requires
        never_starved(requests),
    ensures
        after_requests(Seq::empty(), requests).len() == enqueues_in(requests) - dequeues_in(
            requests,
        ),
    decreases requests.len(),
{
    if requests.len() > 0 {
        let earlier = requests.drop_last();
        assert forall|n: int| 0 <= n <= earlier.len() implies dequeues_in(
            #[trigger] earlier.take(n),
        ) <= enqueues_in(earlier.take(n)) by {
            assert(earlier.take(n) =~= requests.take(n));
        }
        lemma_length_counts_requests(earlier);
        assert(requests.take(requests.len() as int) =~= requests);
    }
}

impl View for Queue {
    type V = Seq<Seq<u8>>;

    /// The buffers held, front first, each as its sequence of octets.
    closed spec fn view(&self) -> Seq<Seq<u8>> {
        self.items@.map_values(|buf: Vec<u8>| buf@)
    }
}

impl Queue {
    /// An empty queue.
    pub fn new() -> (queue: Queue)
        ensures
            queue@ == Seq::<Seq<u8>>::empty(),
    {
        Queue { items: VecDeque::new() }
    }

    /// Appends `item` at the back. The queue owns the octets from then on.
    pub fn enqueue(&mut self, item: Vec<u8>)
        ensures
            final(self)@ == after_enqueue(old(self)@, item@),
    {
        self.items.push_back(item);
    }

    /// Removes the buffer at the front and returns it; returns nothing, and
    /// leaves the queue empty, where it holds no buffer.
    pub fn dequeue(&mut self) -> (item: Option<Vec<u8>>)
        ensures
            item.deep_view() == front(old(self)@),
            final(self)@ == after_dequeue(old(self)@),
            old(self)@.len() == 0 ==> item is None && final(self)@.len() == 0,
    {
        self.items.pop_front()
    }

    /// A copy of the buffer at the front, which the next `dequeue` returns;
    /// nothing where the queue holds no buffer. The queue is left as it is.
    pub fn peek(&self) -> (item: Option<Vec<u8>>)
        ensures
            item.deep_view() == front(self@),
    {
        if self.items.len() == 0 {
            None
        } else {
            Some(self.items[0].clone())
        }
    }

    /// The number of buffers held.
    pub fn length(&self) -> (count: usize)
        ensures
            count == self@.len(),
    {
        self.items.len()
    }

    /// Whether no buffer is held: whether `length` is 0.
    pub fn is_empty(&self) -> (empty: bool)
        ensures
            empty == (self@.len() == 0),
    {
        self.items.len() == 0
    }
}

} // verus!
