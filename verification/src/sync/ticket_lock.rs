//! Fair, FIFO-ordered ticket lock.
//!
//! A thread that wants the lock takes the next ticket; the lock serves
//! tickets one after another, in the order they were taken. Both counters
//! are `usize` values that wrap around. Tickets and guards can be neither
//! copied nor made outside this module: a ticket comes only from
//! `take_ticket`, and a poll consumes it when it admits its holder.

use vstd::prelude::*;
use crate::collections::ring::{
    distance, lemma_successor, lemma_wrap_add, lemma_wrap_basics, lemma_wrap_sub, modulus, successor, wrap,
};
use crate::sync::cache_pad::CachePadded;

verus! {

/// Ticket lock with two counters: the next ticket to hand out and the ticket
/// now being served.
pub struct TicketLock {
    next_ticket: CachePadded<usize>,
    now_serving: CachePadded<usize>,
}

/// A ticket taken from a [`TicketLock`]. It can be neither copied nor made
/// outside this module: its holder waits with it until the lock serves its
/// number, and gives it up to [`TicketLock::poll`] for a guard.
#[derive(Debug)]
pub struct Ticket {
    number: usize,
}

impl Ticket {
    /// The ticket's number.
    pub closed spec fn ticket_number(&self) -> usize {
        self.number
    }

    /// The ticket's number.
    pub fn number(&self) -> (number: usize)
        ensures
            number == self.ticket_number(),
    {
        self.number
    }
}

/// Proof of holding a [`TicketLock`]: the ticket that the lock admitted.
#[derive(Debug)]
pub struct TicketLockGuard {
    ticket: usize,
}

impl TicketLockGuard {
    /// The ticket this guard was admitted with.
    pub closed spec fn ticket(&self) -> usize {
        self.ticket
    }
}

impl TicketLock {
    /// The ticket that the next arrival will take.
    pub closed spec fn next_ticket(&self) -> usize {
        self.next_ticket.value
    }

    /// The ticket currently admitted.
    pub closed spec fn now_serving(&self) -> usize {
        self.now_serving.value
    }

    /// Tickets handed out and not yet released: the holder, if any, and the
    /// waiters behind it.
    pub open spec fn outstanding(&self) -> nat {
        distance(self.now_serving(), self.next_ticket())
    }

    /// No ticket is outstanding, so the next arrival is admitted at once.
    pub open spec fn is_idle(&self) -> bool {
        self.now_serving() == self.next_ticket()
    }

    /// Creates a new unlocked TicketLock.
    pub fn new() -> (lock: Self)
        ensures
            lock.next_ticket() == 0,
            lock.now_serving() == 0,
            lock.is_idle(),
    {
        TicketLock { next_ticket: CachePadded::new(0), now_serving: CachePadded::new(0) }
    }

    /// Handing out one more ticket adds one to the outstanding count, unless
    /// the count is already the largest `usize`.
    proof fn lemma_one_more(&self)
        requires
            self.outstanding() < usize::MAX,
        ensures
            distance(self.now_serving(), successor(self.next_ticket())) == self.outstanding() + 1,
    {
        let s = self.now_serving() as int;
        let n = self.next_ticket() as int;
        lemma_successor(n as usize);
        lemma_wrap_sub(n + 1, s);
        lemma_wrap_basics(s);
        lemma_wrap_add(n - s, 1);
        lemma_wrap_basics(self.outstanding() + 1int);
    }

    /// Takes the next ticket; its holder is admitted once the lock serves it.
    pub fn take_ticket(&mut self) -> (ticket: Ticket)
        ensures
            ticket.ticket_number() == old(self).next_ticket(),
            final(self).next_ticket() == successor(old(self).next_ticket()),
            final(self).now_serving() == old(self).now_serving(),
            old(self).outstanding() < usize::MAX ==> final(self).outstanding() == old(self).outstanding() + 1,
    {
        let ticket = self.next_ticket.value;
        proof {
            lemma_successor(ticket);
            if self.outstanding() < usize::MAX {
                self.lemma_one_more();
            }
        }
        self.next_ticket.value = ticket.wrapping_add(1);
        Ticket { number: ticket }
    }

    /// Checks whether `ticket`, one of the outstanding tickets, is being
    /// served. If so, the ticket becomes a guard and its holder holds the
    /// lock; otherwise the ticket is handed back to wait with.
    pub fn poll(&self, ticket: Ticket) -> (result: Result<TicketLockGuard, Ticket>)
        requires
            distance(self.now_serving(), ticket.ticket_number()) < self.outstanding(),
        ensures
            result is Ok <==> self.now_serving() == ticket.ticket_number(),
            result is Ok ==> result->Ok_0.ticket() == ticket.ticket_number() && self.outstanding() > 0,
            result is Err ==> result->Err_0.ticket_number() == ticket.ticket_number(),
    {
        if self.now_serving.value == ticket.number {
            Ok(TicketLockGuard { ticket: ticket.number })
        } else {
            Err(ticket)
        }
    }

    /// Acquires the lock. On a lock that is held, a caller waits until every
    /// earlier ticket has been released, which a single owner never sees:
    /// acquire through [`TicketLock::take_ticket`] and [`TicketLock::poll`]
    /// when other holders release it.
    pub fn lock(&mut self) -> (guard: TicketLockGuard)
        requires
            old(self).is_idle(),
        ensures
            guard.ticket() == old(self).next_ticket(),
            guard.ticket() == final(self).now_serving(),
            final(self).next_ticket() == successor(old(self).next_ticket()),
            final(self).now_serving() == old(self).now_serving(),
            final(self).outstanding() == 1,
    {
        proof {
            lemma_wrap_basics(0);
        }
        let my_ticket = self.take_ticket();
        TicketLockGuard { ticket: my_ticket.number }
    }

    /// Attempts to acquire the lock without waiting: succeeds exactly when no
    /// ticket is outstanding.
    pub fn try_lock(&mut self) -> (guard: Option<TicketLockGuard>)
        ensures
            guard is Some <==> old(self).is_idle(),
            guard is Some ==> {
                &&& guard->Some_0.ticket() == old(self).next_ticket()
                &&& guard->Some_0.ticket() == final(self).now_serving()
                &&& final(self).next_ticket() == successor(old(self).next_ticket())
                &&& final(self).now_serving() == old(self).now_serving()
                &&& final(self).outstanding() == 1
            },
            guard is None ==> *final(self) == *old(self),
    {
        let next = self.next_ticket.value;
        let serving = self.now_serving.value;
        if serving == next {
            proof {
                lemma_successor(next);
                lemma_wrap_basics(0);
                self.lemma_one_more();
            }
            self.next_ticket.value = next.wrapping_add(1);
            return Some(TicketLockGuard { ticket: next });
        }
        None
    }

    /// Releases the lock held through `guard`; the next ticket is served.
    pub fn unlock(&mut self, guard: TicketLockGuard)
        requires
            guard.ticket() == old(self).now_serving(),
            old(self).outstanding() > 0,
        ensures
            final(self).now_serving() == successor(old(self).now_serving()),
            final(self).next_ticket() == old(self).next_ticket(),
            final(self).outstanding() == old(self).outstanding() - 1,
    {
        let current = self.now_serving.value;
        proof {
            lemma_successor(current);
            let n = self.outstanding() as int;
            lemma_wrap_basics(self.next_ticket() as int);
            lemma_wrap_add(self.next_ticket() - current, current as int);
            lemma_wrap_sub(current + n, current + 1);
            lemma_wrap_basics(n - 1);
        }
        self.now_serving.value = current.wrapping_add(1);
    }
}

impl Default for TicketLock {
    fn default() -> (lock: Self)
        ensures
            lock.next_ticket() == 0,
            lock.now_serving() == 0,
    {
        Self::new()
    }
}

/// FIFO admission: of the tickets handed out from now on, the `i`-th one
/// (counting from zero) is admitted after exactly as many releases as there
/// are tickets ahead of it: the outstanding ones and the `i` taken before
/// it. Tickets are therefore admitted in the order they were taken.
pub proof fn lemma_fifo_admission(serving: usize, next: usize, i: nat, releases: nat)
    requires
        distance(serving, next) + i < modulus(),
        releases < modulus(),
    ensures
        wrap(serving + releases) == wrap(next + i) <==> releases == distance(serving, next) + i,
{
    let ahead = distance(serving, next) + i;
    lemma_wrap_basics(next as int);
    lemma_wrap_add(next - serving, serving as int);
    lemma_wrap_add(serving + distance(serving, next), i as int);
    assert(wrap(next + i) == wrap(serving + ahead));
    if wrap(serving + releases) == wrap(serving + ahead) && releases != ahead {
        lemma_wrap_sub(serving + releases, serving + ahead);
        lemma_wrap_basics(0);
        lemma_wrap_basics(releases - ahead);
        vstd::arithmetic::div_mod::lemma_mod_add_multiples_vanish(releases - ahead, modulus());
        vstd::arithmetic::div_mod::lemma_small_mod((modulus() + releases - ahead) as nat, modulus() as nat);
        assert(false);
    }
}

/// Mutual exclusion: among the outstanding tickets, which follow one another
/// from the one being served, only the first is admitted.
pub proof fn lemma_single_holder(lock: TicketLock, j: nat)
    requires
        j < lock.outstanding(),
    ensures
        wrap(lock.now_serving() + j) == lock.now_serving() <==> j == 0,
{
    lemma_wrap_basics(lock.now_serving() as int);
    lemma_wrap_basics(lock.next_ticket() - lock.now_serving());
    lemma_fifo_admission(lock.now_serving(), lock.now_serving(), j, 0);
    lemma_wrap_basics(0);
}

} // verus!
