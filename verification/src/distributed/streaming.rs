//! Streaming of large result sets: cursors, and what a receiver does with what arrives.

use std::collections::VecDeque;
use vstd::prelude::*;

use crate::storage::NodeId;

verus! {

/// A cursor over paginated results.
#[derive(Debug, Clone)]
pub struct Cursor {
    /// Position in the result set.
    pub position: u64,
    /// Unique cursor identifier.
    pub id: String,
    /// Whether there are more results.
    pub has_more: bool,
    /// Page size.
    pub page_size: usize,
}

impl Cursor {
    /// Creates a cursor at the first result, under a random identifier.
    pub fn new(page_size: usize) -> (r: Self)
        ensures
            r.position == 0,
            r.has_more,
            r.page_size == page_size,
            r.id@.len() == 36,
    {
        Cursor { position: 0, id: NodeId::new().to_string(), has_more: true, page_size }
    }

    /// Moves the cursor on by `count` results.
    pub fn advance(&mut self, count: usize)
        requires
            old(self).position + count <= u64::MAX,
        ensures
            final(self).position == old(self).position + count,
            final(self).id@ == old(self).id@,
            final(self).has_more == old(self).has_more,
            final(self).page_size == old(self).page_size,
    {
        self.position = self.position + count as u64;
    }

    /// Marks the result set as exhausted.
    pub fn complete(&mut self)
        ensures
            !final(self).has_more,
            final(self).position == old(self).position,
            final(self).id@ == old(self).id@,
            final(self).page_size == old(self).page_size,
    {
        self.has_more = false;
    }
}

/// What a channel handed to the receiver.
pub enum Received<T, E> {
    /// A result.
    Item(T),
    /// An error of the producer.
    Failure(E),
    /// The producer is gone and nothing is queued.
    Closed,
    /// Nothing is queued yet. Only a receiver that does not wait sees this.
    Nothing,
}

/// What the receiver does for its caller.
pub enum NextStep<T> {
    /// Hand out a result that is already here.
    Ready(T),
    /// The stream has ended.
    Finished,
    /// Ask the channel.
    Receive,
}

/// Receiving end of a stream of results: what was prefetched, and whether the stream ended.
pub struct ResultStream<T> {
    buffer: VecDeque<T>,
    complete: bool,
}

impl<T> ResultStream<T> {
    /// Results that are already here.
    pub closed spec fn buffered(&self) -> Seq<T> {
        self.buffer@
    }

    /// Whether the stream has ended.
    pub closed spec fn ended(&self) -> bool {
        self.complete
    }

    /// Creates the receiver of a fresh stream.
    pub fn new() -> (r: Self)
        ensures
            r.buffered() == Seq::<T>::empty(),
            !r.ended(),
    {
        ResultStream { buffer: VecDeque::new(), complete: false }
    }

    /// Adds a prefetched result.
    pub fn prefetch(&mut self, item: T)
        ensures
            final(self).buffered() == old(self).buffered().push(item),
            final(self).ended() == old(self).ended(),
    {
        self.buffer.push_back(item);
    }

    /// First part of taking the next result: a prefetched one goes out, an ended stream
    /// gives nothing, and else the channel is to be asked.
    pub fn start_next(&mut self) -> (r: NextStep<T>)
        ensures
            final(self).ended() == old(self).ended(),
            match r {
                NextStep::Ready(item) => old(self).buffered().len() > 0 && item == old(
                    self,
                ).buffered()[0] && final(self).buffered() == old(self).buffered().skip(1),
                NextStep::Finished => old(self).buffered().len() == 0 && old(self).ended()
                    && final(self).buffered() == old(self).buffered(),
                NextStep::Receive => old(self).buffered().len() == 0 && !old(self).ended()
                    && final(self).buffered() == old(self).buffered(),
            },
    {
        match self.buffer.pop_front() {
            Some(item) => {
                assert(self.buffer@ =~= old(self).buffer@.skip(1));
                NextStep::Ready(item)
            },
            None => {
                if self.complete {
                    NextStep::Finished
                } else {
                    NextStep::Receive
                }
            },
        }
    }

    /// Second part: what the channel handed over decides the answer, and an error or a
    /// closed channel ends the stream.
    pub fn finish_next<E>(&mut self, event: Received<T, E>) -> (r: Option<Result<T, E>>)
        ensures
            final(self).buffered() == old(self).buffered(),
            match event {
                Received::Item(item) => r == Some(Ok::<T, E>(item)) && final(self).ended() == old(
                    self,
                ).ended(),
                Received::Failure(e) => r == Some(Err::<T, E>(e)) && final(self).ended(),
                Received::Closed => r is None && final(self).ended(),
                Received::Nothing => r is None && final(self).ended() == old(self).ended(),
            },
    {
        match event {
            Received::Item(item) => Some(Ok(item)),
            Received::Failure(e) => {
                self.complete = true;
                Some(Err(e))
            },
            Received::Closed => {
                self.complete = true;
                None
            },
            Received::Nothing => None,
        }
    }

    /// Whether the stream has ended.
    pub fn is_complete(&self) -> (r: bool)
        ensures
            r == self.ended(),
    {
        self.complete
    }
}

/// What a receiver of batches does with what the batch stream gave.
pub enum BatchStep<T, E> {
    /// Hands out a result.
    Item(T),
    /// Reports a failure.
    Failure(E),
    /// Asks for the next batch.
    NextBatch,
    /// Has come to the end.
    Finished,
}

/// Receiver of batches that hands out single results.
pub struct BatchedStream<T> {
    current_batch: VecDeque<T>,
}

impl<T> BatchedStream<T> {
    /// Results of the current batch that are still to be handed out.
    pub closed spec fn pending(&self) -> Seq<T> {
        self.current_batch@
    }

    /// Creates a receiver with no batch.
    pub fn new() -> (r: Self)
        ensures
            r.pending() == Seq::<T>::empty(),
    {
        BatchedStream { current_batch: VecDeque::new() }
    }

    /// The next result of the current batch. `None` asks for another batch.
    pub fn next_in_batch(&mut self) -> (r: Option<T>)
        ensures
            r is Some <==> old(self).pending().len() > 0,
            r matches Some(item) ==> item == old(self).pending()[0] && final(self).pending() == old(
                self,
            ).pending().skip(1),
            r is None ==> final(self).pending() == old(self).pending(),
    {
        let r = self.current_batch.pop_front();
        assert(r is Some ==> self.current_batch@ =~= old(self).current_batch@.skip(1));
        r
    }

    /// Takes what the batch stream gave. A batch becomes the current one and its first
    /// result goes out; an empty batch asks for the next one.
    pub fn take_batch<E>(&mut self, event: Option<Result<Vec<T>, E>>) -> (r: BatchStep<T, E>)
        ensures
            match event {
                None => r is Finished && final(self).pending() == old(self).pending(),
                Some(Err(e)) => r == BatchStep::<T, E>::Failure(e) && final(self).pending() == old(
                    self,
                ).pending(),
                Some(Ok(batch)) => if batch@.len() == 0 {
                    r is NextBatch && final(self).pending() == Seq::<T>::empty()
                } else {
                    r == BatchStep::<T, E>::Item(batch@[0]) && final(self).pending()
                        == batch@.skip(1)
                },
            },
    {
        match event {
            None => BatchStep::Finished,
            Some(Err(e)) => BatchStep::Failure(e),
            Some(Ok(batch)) => {
                let mut rest = batch;
                let mut queue: VecDeque<T> = VecDeque::new();
                let ghost all = rest@;
                while rest.len() > 0
                    invariant
                        rest@ + queue@ == all,
                    decreases rest@.len(),
                {
                    let ghost had = rest@;
                    let ghost q = queue@;
                    match rest.pop() {
                        None => {},
                        Some(item) => {
                            queue.push_front(item);
                            proof {
                                assert(had =~= rest@.push(item));
                                assert(rest@ + queue@ =~= had + q);
                            }
                        },
                    }
                }
                assert(queue@ =~= all);
                self.current_batch = queue;
                match self.next_in_batch() {
                    None => {
                        assert(self.pending() =~= Seq::<T>::empty());
                        BatchStep::NextBatch
                    },
                    Some(item) => BatchStep::Item(item),
                }
            },
        }
    }

    /// Hands out what is left of the current batch.
    fn drain(&mut self, items: &mut Vec<T>)
        ensures
            final(items)@ == old(items)@ + old(self).pending(),
            final(self).pending() == Seq::<T>::empty(),
    {
        assert(items@ + self.pending() =~= old(items)@ + old(self).pending());
        while self.current_batch.len() > 0
            invariant
                items@ + self.pending() == old(items)@ + old(self).pending(),
            decreases self.pending().len(),
        {
            let ghost had = items@;
            let ghost left = self.pending();
            if let Some(item) = self.next_in_batch() {
                items.push(item);
                assert(items@ + self.pending() =~= had + left);
            }
        }
        assert(self.pending() =~= Seq::<T>::empty());
        assert(items@ + self.pending() =~= items@);
    }

    /// Collects what is left of the current batch and the results of further batches, in
    /// order: all of them, or the first error.
    pub fn collect<E>(self, events: Vec<Result<Vec<T>, E>>) -> (r: Result<Vec<T>, E>)
        ensures
            match r {
                Ok(items) => {
                    &&& forall|i: int| 0 <= i < events@.len() ==> (#[trigger] events@[i]) is Ok
                    &&& items@ == self.pending() + batch_items(events@)
                },
                Err(e) => exists|i: int|
                    0 <= i < events@.len() && #[trigger] events@[i] == Err::<Vec<T>, E>(e) && (
                    forall|j: int| 0 <= j < i ==> (#[trigger] events@[j]) is Ok),
            },
    {
        let ghost all = events@;
        let ghost first = self.pending();
        let mut stream = self;
        let mut items: Vec<T> = Vec::new();
        stream.drain(&mut items);
        proof {
            assert(items@ =~= first);
            assert(all.take(0) =~= Seq::<Result<Vec<T>, E>>::empty());
            assert(first + batch_items(all.take(0)) =~= first);
        }
        for event in it: events.into_iter()
            invariant
                it.seq() == all,
                stream.pending() == Seq::<T>::empty(),
                items@ == first + batch_items(all.take(it.index())),
                forall|i: int| 0 <= i < it.index() ==> (#[trigger] all[i]) is Ok,
        {
            let ghost k = it.index();
            let ghost had = items@;
            proof {
                assert(all[k] == event);
                assert(all.take(k + 1).drop_last() =~= all.take(k));
                assert(all.take(k + 1).last() == event);
            }
            match stream.take_batch(Some(event)) {
                BatchStep::Item(item) => {
                    items.push(item);
                    stream.drain(&mut items);
                    assert(items@ =~= had + event->Ok_0@);
                },
                BatchStep::Failure(e) => {
                    assert(all[k] == Err::<Vec<T>, E>(e));
                    return Err(e);
                },
                BatchStep::NextBatch => {
                    assert(items@ =~= had + event->Ok_0@);
                },
                BatchStep::Finished => {},
            }
            proof {
                assert(had + event->Ok_0@ =~= first + (batch_items(all.take(k)) + event->Ok_0@));
            }
        }
        assert(all.take(all.len() as int) =~= all);
        Ok(items)
    }
}

/// The results of some batches, one batch behind the other.
pub open spec fn batch_items<T, E>(events: Seq<Result<Vec<T>, E>>) -> Seq<T>
    decreases events.len(),
{
    if events.len() == 0 {
        Seq::empty()
    } else {
        batch_items(events.drop_last()) + events.last()->Ok_0@
    }
}

/// Collects the results of a stream, in the order in which they came: all of them, or the
/// first error.
pub fn collect_results<T, E>(events: Vec<Result<T, E>>) -> (r: Result<Vec<T>, E>)
    ensures
        match r {
            Ok(items) => {
                &&& items@.len() == events@.len()
                &&& forall|i: int|
                    0 <= i < events@.len() ==> #[trigger] events@[i] == Ok::<T, E>(items@[i])
            },
            Err(e) => exists|i: int|
                0 <= i < events@.len() && #[trigger] events@[i] == Err::<T, E>(e) && (forall|j: int|
                    0 <= j < i ==> (#[trigger] events@[j]) is Ok),
        },
{
    let mut items: Vec<T> = Vec::new();
    let ghost all = events@;
    let mut queue: VecDeque<Result<T, E>> = VecDeque::new();
    let mut rest = events;
    while rest.len() > 0
        invariant
            rest@ + queue@ == all,
        decreases rest@.len(),
    {
        let ghost had = rest@;
        let ghost q = queue@;
        match rest.pop() {
            None => {},
            Some(x) => {
                queue.push_front(x);
                proof {
                    assert(had =~= rest@.push(x));
                    assert(rest@ + queue@ =~= had + q);
                }
            },
        }
    }
    assert(queue@ =~= all);
    while queue.len() > 0
        invariant
            all == events@,
            items@.len() + queue@.len() == all.len(),
            queue@ == all.skip(items@.len() as int),
            forall|i: int| 0 <= i < items@.len() ==> #[trigger] all[i] == Ok::<T, E>(items@[i]),
        decreases queue@.len(),
    {
        let ghost k = items@.len() as int;
        match queue.pop_front() {
            None => {},
            Some(x) => {
                assert(all[k] == x);
                match x {
                    Ok(item) => {
                        items.push(item);
                        assert(queue@ =~= all.skip(k + 1));
                    },
                    Err(e) => {
                        proof {
                            assert(all[k] == Err::<T, E>(e));
                            assert forall|j: int| 0 <= j < k implies (#[trigger] all[j]) is Ok by {
                                assert(all[j] == Ok::<T, E>(items@[j]));
                            }
                        }
                        return Err(e);
                    },
                }
            },
        }
    }
    Ok(items)
}

/// The results of two runs of batches are those of the first and those of the second; those of
/// one batch are the batch.
pub proof fn law_batch_items<T, E>(a: Seq<Result<Vec<T>, E>>, b: Seq<Result<Vec<T>, E>>)
    ensures
        batch_items(a + b) == batch_items(a) + batch_items(b),
        b.len() == 1 ==> batch_items(b) == b[0]->Ok_0@,
    decreases b.len(),
{
    if b.len() == 0 {
        assert(a + b =~= a);
        assert(batch_items(a) + batch_items(b) =~= batch_items(a));
    } else {
        assert((a + b).drop_last() =~= a + b.drop_last());
        law_batch_items(a, b.drop_last());
        let last = b.last()->Ok_0@;
        assert(batch_items(a) + batch_items(b.drop_last()) + last =~= batch_items(a) + (batch_items(
            b.drop_last(),
        ) + last));
        if b.len() == 1 {
            assert(batch_items(b.drop_last()) =~= Seq::<T>::empty());
            assert(batch_items(b) =~= last);
        }
    }
}

} // verus!
