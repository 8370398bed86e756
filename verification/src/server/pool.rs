//! A limit on the number of connections.

use vstd::prelude::*;

verus! {

/// Counts connections and keeps their number below a limit.
#[derive(Debug)]
pub struct ConnectionPool {
    max_connections: usize,
    active: usize,
}

impl ConnectionPool {
    /// Largest number of connections.
    pub closed spec fn limit(&self) -> usize {
        self.max_connections
    }

    /// Number of connections.
    pub closed spec fn count(&self) -> usize {
        self.active
    }

    /// Creates a pool without connections.
    pub fn new(max_connections: usize) -> (r: Self)
        ensures
            r.limit() == max_connections,
            r.count() == 0,
    {
        ConnectionPool { max_connections, active: 0 }
    }

    /// Takes a slot, if there is one.
    pub fn try_acquire(&mut self) -> (r: bool)
        ensures
            r == (old(self).count() < old(self).limit()),
            final(self).limit() == old(self).limit(),
            final(self).count() == stepped(
                old(self).limit() as int,
                old(self).count() as int,
                PoolEvent::Acquire,
            ),
    {
        if self.active >= self.max_connections {
            return false;
        }
        self.active = self.active + 1;
        true
    }

    /// Gives a slot back. Without one the count wraps around.
    pub fn release(&mut self)
        ensures
            final(self).limit() == old(self).limit(),
            final(self).count() == stepped(
                old(self).limit() as int,
                old(self).count() as int,
                PoolEvent::Release,
            ),
    {
        if self.active == 0 {
            self.active = usize::MAX;
        } else {
            self.active = self.active - 1;
        }
    }

    /// Number of connections.
    pub fn active_count(&self) -> (r: usize)
        ensures
            r == self.count(),
    {
        self.active
    }

    /// Largest number of connections.
    pub fn max_connections(&self) -> (r: usize)
        ensures
            r == self.limit(),
    {
        self.max_connections
    }

    /// Number of free slots.
    pub fn available(&self) -> (r: usize)
        requires
            self.count() <= self.limit(),
        ensures
            r == self.limit() - self.count(),
    {
        self.max_connections - self.active
    }
}

/// What happens to a pool. The calls of connections that run side by side take effect one after
/// the other.
pub enum PoolEvent {
    /// A connection asks for a slot.
    Acquire,
    /// A connection gives a slot back.
    Release,
}

/// Number of connections after one event: a slot is given only below the limit, and giving one
/// back that was not taken makes the count wrap around.
pub open spec fn stepped(limit: int, count: int, event: PoolEvent) -> int {
    match event {
        PoolEvent::Acquire => if count < limit {
            count + 1
        } else {
            count
        },
        PoolEvent::Release => if count == 0 {
            usize::MAX as int
        } else {
            count - 1
        },
    }
}

/// Number of connections of a new pool after some events.
pub open spec fn count_after(limit: int, events: Seq<PoolEvent>) -> int
    decreases events.len(),
{
    if events.len() == 0 {
        0
    } else {
        stepped(limit, count_after(limit, events.drop_last()), events.last())
    }
}

/// How many of some requests for a slot were granted.
pub open spec fn granted(limit: int, events: Seq<PoolEvent>) -> int
    decreases events.len(),
{
    if events.len() == 0 {
        0
    } else {
        granted(limit, events.drop_last()) + (if events.last() is Acquire && count_after(
            limit,
            events.drop_last(),
        ) < limit {
            1int
        } else {
            0int
        })
    }
}

/// How many slots were given back.
pub open spec fn released(events: Seq<PoolEvent>) -> int
    decreases events.len(),
{
    if events.len() == 0 {
        0
    } else {
        released(events.drop_last()) + (if events.last() is Release {
            1int
        } else {
            0int
        })
    }
}

/// Whether a slot was given back only while one was taken.
pub open spec fn balanced(limit: int, events: Seq<PoolEvent>) -> bool
    decreases events.len(),
{
    events.len() > 0 ==> balanced(limit, events.drop_last()) && (events.last() is Release
        ==> released(events.drop_last()) < granted(limit, events.drop_last()))
}

/// In whatever order connections take slots and give them back, their number is that of the
/// slots that were granted and not yet given back, and there are never more than allowed.
pub proof fn law_pool_keeps_its_limit(limit: int, events: Seq<PoolEvent>)
    requires
        0 <= limit,
        balanced(limit, events),
    ensures
        count_after(limit, events) == granted(limit, events) - released(events),
        0 <= count_after(limit, events) <= limit,
    decreases events.len(),
{
    if events.len() > 0 {
        law_pool_keeps_its_limit(limit, events.drop_last());
    }
}

/// A slot that is given back can be taken again.
pub proof fn law_released_slot_is_free(limit: int, events: Seq<PoolEvent>)
    requires
        0 < limit,
        balanced(limit, events.push(PoolEvent::Release)),
    ensures
        count_after(limit, events.push(PoolEvent::Release).push(PoolEvent::Acquire))
            == count_after(limit, events.push(PoolEvent::Release)) + 1,
{
    let e = events.push(PoolEvent::Release);
    assert(e.drop_last() =~= events);
    law_pool_keeps_its_limit(limit, events);
    assert(e.push(PoolEvent::Acquire).drop_last() =~= e);
}

} // verus!
