//! The counters of a ticket spin lock: each acquirer takes the next
//! ticket, and holds the lock while the owner counter shows its ticket.
use vstd::prelude::*;

verus! {

/// `x + 1` in 32-bit wrapping arithmetic.
pub open spec fn succ32(x: u32) -> u32 {
    if x == u32::MAX {
        0
    } else {
        (x + 1) as u32
    }
}

/// The counters of a ticket lock.
#[derive(Debug)]
pub struct SpinLock {
    owner: u32,
    next: u32,
}

impl SpinLock {
    /// Ticket now being served.
    pub closed spec fn owner_spec(&self) -> u32 {
        self.owner
    }

    /// Ticket the next acquirer gets.
    pub closed spec fn next_spec(&self) -> u32 {
        self.next
    }

    /// Someone holds the lock or waits for it.
    pub open spec fn locked(&self) -> bool {
        self.owner_spec() != self.next_spec()
    }

    /// An unlocked lock.
    pub fn new() -> (r: Self)
        ensures
            r.owner_spec() == 0,
            r.next_spec() == 0,
            !r.locked(),
    {
        SpinLock { owner: 0, next: 0 }
    }

    /// Takes the next ticket; its holder may enter once the owner counter
    /// reaches it.
    pub fn take_ticket(&mut self) -> (ticket: u32)
        ensures
            ticket == old(self).next_spec(),
            final(self).next_spec() == succ32(old(self).next_spec()),
            final(self).owner_spec() == old(self).owner_spec(),
    {
        let ticket = self.next;
        self.next = self.next.wrapping_add(1);
        ticket
    }

    /// Whether the holder of `ticket` may enter.
    pub fn is_turn(&self, ticket: u32) -> (r: bool)
        ensures
            r == (ticket == self.owner_spec()),
    {
        ticket == self.owner
    }

    /// Takes the lock: takes the next ticket, which is served at once since
    /// the lock must be free (with a holder or a waiter, the caller would
    /// wait for `release` by them).
    pub fn acquire(&mut self) -> (ticket: u32)
        requires
            !old(self).locked(),
        ensures
            ticket == old(self).owner_spec(),
            final(self).next_spec() == succ32(old(self).next_spec()),
            final(self).owner_spec() == old(self).owner_spec(),
            final(self).locked(),
    {
        let ticket = self.take_ticket();
        ticket
    }

    /// Lets the next ticket in.
    pub fn release(&mut self)
        ensures
            final(self).owner_spec() == succ32(old(self).owner_spec()),
            final(self).next_spec() == old(self).next_spec(),
    {
        self.owner = self.owner.wrapping_add(1);
    }

    /// Takes the lock if nobody holds or waits for it.
    pub fn try_acquire(&mut self) -> (r: bool)
        ensures
            r == !old(self).locked(),
            r ==> final(self).next_spec() == succ32(old(self).next_spec()) && final(self).owner_spec() == old(self).owner_spec(),
            !r ==> *final(self) == *old(self),
    {
        let owner = self.owner;
        let ticket = self.next;
        if ticket != owner {
            return false;
        }
        self.next = ticket.wrapping_add(1);
        true
    }

    /// Whether someone holds the lock or waits for it.
    pub fn is_locked(&self) -> (r: bool)
        ensures
            r == self.locked(),
    {
        self.owner != self.next
    }
}

/// Taking a free lock holds it, and releasing it then frees it again:
/// `held` is what a successful `try_acquire` leaves of `free`, and
/// `after` what `release` leaves of `held`.
pub proof fn law_acquire_release(free: SpinLock, held: SpinLock, after: SpinLock)
    requires
        !free.locked(),
        held.next_spec() == succ32(free.next_spec()),
        held.owner_spec() == free.owner_spec(),
        after.owner_spec() == succ32(held.owner_spec()),
        after.next_spec() == held.next_spec(),
    ensures
        held.locked(),
        !after.locked(),
{
}

/// Tickets are served in the order they were taken: after `k` releases
/// from a lock whose owner was `o`, the ticket served is `o + k` modulo
/// 2^32, so the `k`-th ticket taken after `o` is the `k`-th served.
pub open spec fn served_after(o: u32, k: nat) -> u32
    decreases k,
{
    if k == 0 {
        o
    } else {
        succ32(served_after(o, (k - 1) as nat))
    }
}

/// Counting tickets and counting releases agree: both advance the same
/// counter function, so the ticket taken `k` steps after `o` is the one
/// served after `k` releases.
pub proof fn law_fifo(o: u32, k: nat)
    ensures
        served_after(o, k) as int == (o as int + k) % 0x1_0000_0000,
    decreases k,
{
    if k == 0 {
        vstd::arithmetic::div_mod::lemma_small_mod(o as nat, 0x1_0000_0000);
    } else {
        law_fifo(o, (k - 1) as nat);
        let p = served_after(o, (k - 1) as nat) as int;
        vstd::arithmetic::div_mod::lemma_add_mod_noop(o as int + k - 1, 1, 0x1_0000_0000);
        vstd::arithmetic::div_mod::lemma_small_mod(1, 0x1_0000_0000);
        if p == u32::MAX {
            vstd::arithmetic::div_mod::lemma_mod_self_0(0x1_0000_0000);
        } else {
            vstd::arithmetic::div_mod::lemma_small_mod((p + 1) as nat, 0x1_0000_0000);
        }
    }
}

/// Fewer than 2^32 tickets taken in a row are all different, so no two
/// holders are let in at once: the ticket served after `i` releases and
/// the one served after `j` releases differ.
pub proof fn law_tickets_distinct(o: u32, i: nat, j: nat)
    requires
        i < j < 0x1_0000_0000,
    ensures
        served_after(o, i) != served_after(o, j),
{
    law_fifo(o, i);
    law_fifo(o, j);
    let m: int = 0x1_0000_0000;
    vstd::arithmetic::div_mod::lemma_fundamental_div_mod(o as int + i, m);
    vstd::arithmetic::div_mod::lemma_fundamental_div_mod(o as int + j, m);
    let qi = (o as int + i) / m;
    let qj = (o as int + j) / m;
    if served_after(o, i) == served_after(o, j) {
        assert(m * (qj - qi) == j - i) by (nonlinear_arith)
            requires
                o as int + i == m * qi + (o as int + i) % m,
                o as int + j == m * qj + (o as int + j) % m,
                (o as int + i) % m == (o as int + j) % m,
        ;
        assert(false) by (nonlinear_arith)
            requires
                m * (qj - qi) == j - i,
                0 < j - i < m,
                m == 0x1_0000_0000,
        ;
    }
}

} // verus!
