use vstd::prelude::*;

verus! {

/// The state that the pool's one mutex guards.  Workers move between the
/// free set, a deposit made out to one waiter's ticket, and the leases that
/// hold them outside the pool; a ghost count of those leases makes the
/// conservation of workers a stated invariant rather than a hope.  A granted
/// worker moves out by ownership, so no two leases can observe one at once.
///
/// Waiters are keyed by monotonically increasing tickets, so removing one
/// from the queue on cancellation needs no reference identity.
pub struct ObjectPoolInner<T> {
    closed: bool,
    capacity: usize,
    next_ticket: u64,
    waiting: Vec<u64>,
    deposited: Vec<(u64, T)>,
    free: Vec<T>,
    outstanding: Ghost<int>,
}

#[verifier::ext_equal]
pub struct PoolView<T> {
    pub closed: bool,
    pub capacity: nat,
    pub next_ticket: nat,
    pub waiting: Seq<u64>,
    pub deposited: Seq<(u64, T)>,
    pub free: Seq<T>,
    pub outstanding: int,
}

impl<T> View for ObjectPoolInner<T> {
    type V = PoolView<T>;

    closed spec fn view(&self) -> PoolView<T> {
        PoolView {
            closed: self.closed,
            capacity: self.capacity as nat,
            next_ticket: self.next_ticket as nat,
            waiting: self.waiting@,
            deposited: self.deposited@,
            free: self.free@,
            outstanding: self.outstanding@,
        }
    }
}

impl<T> PoolView<T> {
    /// Every worker is in exactly one place while the pool is open; once it
    /// is closing, workers only ever leave.
    pub open spec fn conserved(self) -> bool {
        if self.closed {
            self.free.len() + self.deposited.len() + self.outstanding <= self.capacity
        } else {
            self.free.len() + self.deposited.len() + self.outstanding == self.capacity
        }
    }

    /// Tickets are distinct, never shared between the queue and a deposit,
    /// and always below the next one to be issued.
    pub open spec fn tickets_wf(self) -> bool {
        &&& (forall|i: int, j: int|
            0 <= i < j < self.waiting.len() ==> #[trigger] self.waiting[i]
                != #[trigger] self.waiting[j])
        &&& (forall|i: int, j: int|
            0 <= i < j < self.deposited.len() ==> (#[trigger] self.deposited[i]).0
                != (#[trigger] self.deposited[j]).0)
        &&& (forall|i: int, j: int|
            0 <= i < self.waiting.len() && 0 <= j < self.deposited.len()
                ==> #[trigger] self.waiting[i] != (#[trigger] self.deposited[j]).0)
        &&& (forall|i: int|
            0 <= i < self.waiting.len() ==> #[trigger] self.waiting[i] < self.next_ticket)
        &&& (forall|i: int|
            0 <= i < self.deposited.len() ==> (#[trigger] self.deposited[i]).0
                < self.next_ticket)
    }

    pub open spec fn wf(self) -> bool {
        &&& self.conserved()
        &&& self.outstanding >= 0
        &&& self.tickets_wf()
    }

    /// A worker sits deposited for this ticket.
    pub open spec fn has_deposit(self, ticket: u64) -> bool {
        exists|i: int| 0 <= i < self.deposited.len() && (#[trigger] self.deposited[i]).0 == ticket
    }

    pub open spec fn deposit_index(self, ticket: u64) -> int {
        choose|i: int| 0 <= i < self.deposited.len() && (#[trigger] self.deposited[i]).0 == ticket
    }

    /// This ticket still stands in the wait queue.
    pub open spec fn in_waiting(self, ticket: u64) -> bool {
        exists|i: int| 0 <= i < self.waiting.len() && self.waiting[i] == ticket
    }

    pub open spec fn waiting_index(self, ticket: u64) -> int {
        choose|i: int| 0 <= i < self.waiting.len() && self.waiting[i] == ticket
    }
}

/// What a lease request yields: a worker at once, a ticket to wait on, or a
/// refusal because the pool is closed.
pub enum GetStep<T> {
    Granted(T),
    Enqueued(u64),
    Closed,
}

/// A lease request: grant a free worker, else enqueue a fresh ticket, unless
/// the pool is closed.
pub open spec fn spec_try_get<T>(s: PoolView<T>) -> (PoolView<T>, GetStep<T>) {
    if s.closed {
        (s, GetStep::Closed)
    } else if s.free.len() > 0 {
        (
            PoolView { free: s.free.drop_last(), outstanding: s.outstanding + 1, ..s },
            GetStep::Granted(s.free.last()),
        )
    } else {
        (
            PoolView {
                waiting: s.waiting.push(s.next_ticket as u64),
                next_ticket: s.next_ticket + 1,
                ..s
            },
            GetStep::Enqueued(s.next_ticket as u64),
        )
    }
}

/// A worker comes back from a lease: hand it to the head of the queue, else
/// put it with the free set.
pub open spec fn spec_return<T>(s: PoolView<T>, obj: T) -> PoolView<T> {
    if s.waiting.len() > 0 {
        PoolView {
            waiting: s.waiting.subrange(1, s.waiting.len() as int),
            deposited: s.deposited.push((s.waiting[0], obj)),
            outstanding: s.outstanding - 1,
            ..s
        }
    } else {
        PoolView { free: s.free.push(obj), outstanding: s.outstanding - 1, ..s }
    }
}

/// A waiter looks at its slot: it takes the deposit made out to its ticket,
/// if one is there.
pub open spec fn spec_recv<T>(s: PoolView<T>, ticket: u64) -> (PoolView<T>, Option<T>) {
    if s.has_deposit(ticket) {
        let i = s.deposit_index(ticket);
        (
            PoolView { deposited: s.deposited.remove(i), outstanding: s.outstanding + 1, ..s },
            Some(s.deposited[i].1),
        )
    } else {
        (s, None)
    }
}

/// A waiter abandons: leave the queue, and if a worker was already deposited
/// for this ticket, route it back through the normal release path — to the
/// next waiter in line, or to the free set.
pub open spec fn spec_cancel<T>(s: PoolView<T>, ticket: u64) -> PoolView<T> {
    let s1 = if s.in_waiting(ticket) {
        PoolView { waiting: s.waiting.remove(s.waiting_index(ticket)), ..s }
    } else {
        s
    };
    if s1.has_deposit(ticket) {
        let i = s1.deposit_index(ticket);
        let obj = s1.deposited[i].1;
        let s2 = PoolView { deposited: s1.deposited.remove(i), ..s1 };
        if s2.waiting.len() > 0 {
            PoolView {
                waiting: s2.waiting.subrange(1, s2.waiting.len() as int),
                deposited: s2.deposited.push((s2.waiting[0], obj)),
                ..s2
            }
        } else {
            PoolView { free: s2.free.push(obj), ..s2 }
        }
    } else {
        s1
    }
}

/// The drain tickets that shutdown installs: one per worker still out.
pub open spec fn drain_tickets(next: nat, remaining: nat) -> Seq<u64> {
    Seq::new(remaining, |i: int| (next + i) as u64)
}

/// Shutdown: refuse new leases, abandon the queued waiters, take the free
/// workers out at once, and queue one drain ticket for each worker that is
/// still deposited or leased.
pub open spec fn spec_close<T>(s: PoolView<T>) -> (PoolView<T>, Seq<T>, nat) {
    if s.closed {
        (s, Seq::empty(), 0)
    } else {
        let remaining = (s.capacity - s.free.len()) as nat;
        (
            PoolView {
                closed: true,
                free: Seq::empty(),
                waiting: drain_tickets(s.next_ticket, remaining),
                next_ticket: s.next_ticket + remaining,
                ..s
            },
            s.free,
            remaining,
        )
    }
}

impl<T> ObjectPoolInner<T> {
    /// A fresh pool over the given workers; its capacity is their number.
    pub fn new(objs: Vec<T>) -> (r: Self)
        ensures
            r@.wf(),
            !r@.closed,
            r@.capacity == objs@.len(),
            r@.free == objs@,
            r@.waiting.len() == 0,
            r@.deposited.len() == 0,
            r@.outstanding == 0,
    {
        let capacity = objs.len();
        ObjectPoolInner {
            closed: false,
            capacity,
            next_ticket: 0,
            waiting: Vec::new(),
            deposited: Vec::new(),
            free: objs,
            outstanding: Ghost(0int),
        }
    }

    pub fn is_closed(&self) -> (r: bool)
        ensures
            r == self@.closed,
    {
        self.closed
    }

    /// The ticket still stands in the wait queue (a waiter that finds its
    /// ticket gone and no deposit has been abandoned by shutdown).
    pub fn waiting_contains(&self, ticket: u64) -> (r: bool)
        ensures
            r == self@.in_waiting(ticket),
    {
        let mut i: usize = 0;
        while i < self.waiting.len()
            invariant
                i <= self@.waiting.len(),
                forall|j: int| 0 <= j < i ==> self@.waiting[j] != ticket,
            decreases self@.waiting.len() - i,
        {
            if self.waiting[i] == ticket {
                return true;
            }
            i += 1;
        }
        false
    }

    /// Ask for a lease, as `spec_try_get` describes.
    pub fn try_get(&mut self) -> (r: GetStep<T>)
        requires
            old(self)@.wf(),
            old(self)@.next_ticket < u64::MAX,
        ensures
            final(self)@.wf(),
            final(self)@ == spec_try_get(old(self)@).0,
            r == spec_try_get(old(self)@).1,
    {
        if self.closed {
            assert(self@ =~= spec_try_get(self@).0);
            return GetStep::Closed;
        }
        match self.free.pop() {
            Some(obj) => {
                proof {
                    self.outstanding@ = self.outstanding@ + 1;
                }
                assert(self@ =~= spec_try_get(old(self)@).0);
                GetStep::Granted(obj)
            },
            None => {
                let t = self.next_ticket;
                self.next_ticket = self.next_ticket + 1;
                self.waiting.push(t);
                assert(self@ =~= spec_try_get(old(self)@).0);
                GetStep::Enqueued(t)
            },
        }
    }

    /// Give a worker back, as `spec_return` describes: the head waiter gets
    /// it, or it joins the free set.
    pub fn return_object(&mut self, obj: T)
        requires
            old(self)@.wf(),
            old(self)@.outstanding >= 1,
        ensures
            final(self)@.wf(),
            final(self)@ == spec_return(old(self)@, obj),
    {
        proof {
            self.outstanding@ = self.outstanding@ - 1;
        }
        if self.waiting.len() > 0 {
            let t = self.waiting.remove(0);
            self.deposited.push((t, obj));
            assert(self@ =~= spec_return(old(self)@, obj));
        } else {
            self.free.push(obj);
            assert(self@ =~= spec_return(old(self)@, obj));
        }
    }

    /// Take the deposit made out to `ticket`, as `spec_recv` describes.
    pub fn recv(&mut self, ticket: u64) -> (r: Option<T>)
        requires
            old(self)@.wf(),
        ensures
            final(self)@.wf(),
            final(self)@ == spec_recv(old(self)@, ticket).0,
            r == spec_recv(old(self)@, ticket).1,
    {
        let ghost s0 = self@;
        let mut i: usize = 0;
        while i < self.deposited.len()
            invariant
                self@ == s0,
                s0 == old(self)@,
                s0.wf(),
                i <= s0.deposited.len(),
                forall|j: int| 0 <= j < i ==> (#[trigger] s0.deposited[j]).0 != ticket,
            decreases s0.deposited.len() - i,
        {
            if self.deposited[i].0 == ticket {
                proof {
                    assert(s0.has_deposit(ticket));
                    let k = s0.deposit_index(ticket);
                    assert(0 <= k < s0.deposited.len() && (s0.deposited[k]).0 == ticket);
                    if k < i {
                        assert((s0.deposited[k]).0 != (s0.deposited[i as int]).0);
                    }
                    if k > i {
                        assert((s0.deposited[i as int]).0 != (s0.deposited[k]).0);
                    }
                    self.outstanding@ = self.outstanding@ + 1;
                }
                let (_, obj) = self.deposited.remove(i);
                proof {
                    assert(self@ =~= spec_recv(s0, ticket).0);
                    lemma_recv_wf(s0, ticket);
                }
                return Some(obj);
            }
            i += 1;
        }
        proof {
            assert(!s0.has_deposit(ticket));
            assert(self@ =~= spec_recv(s0, ticket).0);
        }
        None
    }

    /// Abandon the waiter holding `ticket`, as `spec_cancel` describes: it
    /// leaves the queue, and a worker already deposited for it goes back
    /// through the normal release path.
    pub fn cancel(&mut self, ticket: u64)
        requires
            old(self)@.wf(),
        ensures
            final(self)@.wf(),
            final(self)@ == spec_cancel(old(self)@, ticket),
    {
        let ghost s0 = self@;
        // take the ticket out of the wait queue, if it still stands there
        let mut i: usize = 0;
        let mut scanning = true;
        while scanning && i < self.waiting.len()
            invariant
                s0.wf(),
                s0 == old(self)@,
                scanning ==> self@ == s0 && i <= s0.waiting.len() && (forall|j: int|
                    0 <= j < i ==> s0.waiting[j] != ticket),
                !scanning ==> s0.in_waiting(ticket) && self@ =~= (PoolView {
                    waiting: s0.waiting.remove(s0.waiting_index(ticket)),
                    ..s0
                }),
            decreases (if scanning { 1int } else { 0int }), s0.waiting.len() - i,
        {
            if self.waiting[i] == ticket {
                proof {
                    assert(s0.in_waiting(ticket));
                    let k = s0.waiting_index(ticket);
                    assert(0 <= k < s0.waiting.len() && s0.waiting[k] == ticket);
                    if k < i {
                        assert(s0.waiting[k] != s0.waiting[i as int]);
                    }
                    if k > i {
                        assert(s0.waiting[i as int] != s0.waiting[k]);
                    }
                }
                self.waiting.remove(i);
                scanning = false;
            } else {
                i += 1;
            }
        }
        proof {
            if scanning {
                assert(!s0.in_waiting(ticket));
            }
            assert(self@ =~= spec_cancel_mid(s0, ticket));
            lemma_cancel_mid_wf(s0, ticket);
        }
        let ghost s1 = spec_cancel_mid(s0, ticket);
        // a worker may already have been deposited for this ticket
        let mut d: usize = 0;
        while d < self.deposited.len()
            invariant
                self@ == s1,
                s0.wf(),
                s0 == old(self)@,
                s1 == spec_cancel_mid(s0, ticket),
                s1.wf(),
                d <= s1.deposited.len(),
                forall|j: int| 0 <= j < d ==> (#[trigger] s1.deposited[j]).0 != ticket,
            decreases s1.deposited.len() - d,
        {
            if self.deposited[d].0 == ticket {
                proof {
                    assert(s1.has_deposit(ticket));
                    let k = s1.deposit_index(ticket);
                    assert(0 <= k < s1.deposited.len() && (s1.deposited[k]).0 == ticket);
                    if k < d {
                        assert((s1.deposited[k]).0 != (s1.deposited[d as int]).0);
                    }
                    if k > d {
                        assert((s1.deposited[d as int]).0 != (s1.deposited[k]).0);
                    }
                }
                let (_, obj) = self.deposited.remove(d);
                if self.waiting.len() > 0 {
                    let t = self.waiting.remove(0);
                    self.deposited.push((t, obj));
                } else {
                    self.free.push(obj);
                }
                proof {
                    assert(self@ =~= spec_cancel(s0, ticket));
                    lemma_cancel_wf(s0, ticket);
                }
                return ;
            }
            d += 1;
        }
        proof {
            assert(!s1.has_deposit(ticket));
            assert(self@ =~= spec_cancel(s0, ticket));
        }
    }

    /// Shut the pool down, as `spec_close` describes.  Returns the free
    /// workers, to be shut down at once, and the count of drain tickets that
    /// now stand at the queue's tail: one per worker still out, each served
    /// through the normal release path as its lease drops.  Together they
    /// cover the whole capacity.
    pub fn close(&mut self) -> (r: (Vec<T>, Vec<u64>))
        requires
            old(self)@.wf(),
            old(self)@.next_ticket + old(self)@.capacity <= u64::MAX,
        ensures
            final(self)@.wf(),
            final(self)@ == spec_close(old(self)@).0,
            r.0@ == spec_close(old(self)@).1,
            r.1@.len() == spec_close(old(self)@).2,
            !old(self)@.closed ==> r.1@ == spec_close(old(self)@).0.waiting,
            !old(self)@.closed ==> r.0@.len() + r.1@.len() == old(self)@.capacity && r.1@.len()
                == old(self)@.deposited.len() + old(self)@.outstanding,
    {
        if self.closed {
            assert(self@ =~= spec_close(self@).0);
            return (Vec::new(), Vec::new());
        }
        let ghost s0 = self@;
        self.closed = true;
        let mut free: Vec<T> = Vec::new();
        core::mem::swap(&mut free, &mut self.free);
        let remaining = self.capacity - free.len();
        self.waiting.clear();
        let ghost base = self.next_ticket;
        let mut tickets: Vec<u64> = Vec::new();
        let mut k: usize = 0;
        while k < remaining
            invariant
                k <= remaining,
                self@.next_ticket == base + k,
                base + remaining <= u64::MAX,
                self@.waiting =~= drain_tickets(base as nat, k as nat),
                tickets@ =~= self@.waiting,
                self@.closed == true,
                self@.capacity == s0.capacity,
                self@.deposited == s0.deposited,
                self@.free.len() == 0,
                self@.outstanding == s0.outstanding,
            decreases remaining - k,
        {
            let t = self.next_ticket;
            self.next_ticket = self.next_ticket + 1;
            self.waiting.push(t);
            tickets.push(t);
            proof {
                assert(self@.waiting =~= drain_tickets(base as nat, (k + 1) as nat));
            }
            k += 1;
        }
        proof {
            assert(self@ =~= spec_close(s0).0);
            lemma_drain_tickets_wf(self@, base as nat, remaining as nat, s0);
        }
        (free, tickets)
    }
}

/// The queue-removal half of a cancellation.
pub open spec fn spec_cancel_mid<T>(s: PoolView<T>, ticket: u64) -> PoolView<T> {
    if s.in_waiting(ticket) {
        PoolView { waiting: s.waiting.remove(s.waiting_index(ticket)), ..s }
    } else {
        s
    }
}

/// Invariants under load: however many leases and releases interleave, a
/// well-formed pool never has more than `capacity` workers in flight, and a
/// lease request either gets a worker at once, joins the queue on a fresh
/// ticket at the tail, or fails exactly when the pool is closed.
pub proof fn lemma_lease_invariants<T>(s: PoolView<T>)
    requires
        s.wf(),
        s.next_ticket < u64::MAX,
    ensures
        s.outstanding <= s.capacity,
        spec_try_get(s).0.wf(),
        spec_try_get(s).1 is Closed <==> s.closed,
        spec_try_get(s).1 is Granted <==> !s.closed && s.free.len() > 0,
        spec_try_get(s).1 is Enqueued <==> !s.closed && s.free.len() == 0,
        !s.closed && s.free.len() == 0 ==> spec_try_get(s).0.waiting == s.waiting.push(
            s.next_ticket as u64,
        ),
{
    let s1 = spec_try_get(s).0;
    if !s.closed && s.free.len() == 0 {
        assert forall|a: int, b: int|
            0 <= a < b < s1.waiting.len() implies #[trigger] s1.waiting[a] != #[trigger] s1
            .waiting[b] by {
            if b == s1.waiting.len() - 1 {
                assert(s1.waiting[a] == s.waiting[a]);
                assert(s.waiting[a] < s.next_ticket);
            }
        }
        assert forall|a: int, b: int|
            0 <= a < s1.waiting.len() && 0 <= b < s1.deposited.len() implies #[trigger] s1
            .waiting[a] != (#[trigger] s1.deposited[b]).0 by {
            if a == s1.waiting.len() - 1 {
                assert((s.deposited[b]).0 < s.next_ticket);
            } else {
                assert(s1.waiting[a] == s.waiting[a]);
            }
        }
    }
}

/// A release keeps the pool well-formed, and hands the worker to the head of
/// the wait queue whenever one waits (never to a later waiter).
pub proof fn lemma_release_invariants<T>(s: PoolView<T>, obj: T)
    requires
        s.wf(),
        s.outstanding >= 1,
    ensures
        spec_return(s, obj).wf(),
        s.waiting.len() > 0 ==> spec_return(s, obj).has_deposit(s.waiting[0])
            && spec_return(s, obj).deposited.last() == (s.waiting[0], obj),
        s.waiting.len() == 0 ==> spec_return(s, obj).free.last() == obj,
{
    let s1 = spec_return(s, obj);
    if s.waiting.len() > 0 {
        assert((s1.deposited[s1.deposited.len() - 1]).0 == s.waiting[0]);
    }
}

/// FIFO: two waiters enqueue in order on an exhausted open pool; when one
/// worker is then released, the earlier waiter's ticket is the one a deposit
/// is made out to — and receiving on that ticket yields exactly that worker —
/// while the later waiter has none.
pub proof fn lemma_fifo<T>(s: PoolView<T>, w: T)
    requires
        s.wf(),
        !s.closed,
        s.free.len() == 0,
        s.waiting.len() == 0,
        s.outstanding >= 1,
        s.next_ticket + 1 < u64::MAX,
    ensures
        ({
            let (s1, a) = spec_try_get(s);
            let (s2, b) = spec_try_get(s1);
            let s3 = spec_return(s2, w);
            &&& a == GetStep::Enqueued::<T>(s.next_ticket as u64)
            &&& b == GetStep::Enqueued::<T>((s.next_ticket + 1) as u64)
            &&& s3.has_deposit(s.next_ticket as u64)
            &&& spec_recv(s3, s.next_ticket as u64).1 == Some(w)
            &&& !s3.has_deposit((s.next_ticket + 1) as u64)
        }),
{
    let (s1, a) = spec_try_get(s);
    let (s2, b) = spec_try_get(s1);
    let s3 = spec_return(s2, w);
    let ta = s.next_ticket as u64;
    let tb = (s.next_ticket + 1) as u64;
    assert(s2.waiting =~= seq![ta, tb]);
    assert(s3.deposited == s2.deposited.push((ta, w)));
    assert((s3.deposited[s3.deposited.len() - 1]).0 == ta);
    assert(s3.has_deposit(ta));
    let i = s3.deposit_index(ta);
    assert(0 <= i < s3.deposited.len() && (s3.deposited[i]).0 == ta);
    if i < s3.deposited.len() - 1 {
        assert(s3.deposited[i] == s2.deposited[i]);
        assert((s2.deposited[i]).0 < s.next_ticket);
    }
    assert(i == s3.deposited.len() - 1);
    assert(spec_recv(s3, ta).1 == Some(s3.deposited[i].1));
    if s3.has_deposit(tb) {
        let j = s3.deposit_index(tb);
        assert(0 <= j < s3.deposited.len() && (s3.deposited[j]).0 == tb);
        if j < s3.deposited.len() - 1 {
            assert(s3.deposited[j] == s2.deposited[j]);
            assert((s2.deposited[j]).0 < s.next_ticket);
        }
    }
}

/// Cancellation safety: for any schedule of release against cancel, after a
/// waiter is discarded the pool is still well-formed and no worker has been
/// lost — what is free or deposited together is unchanged, and so is the
/// count held by leases.
pub proof fn lemma_cancel_safe<T>(s: PoolView<T>, ticket: u64)
    requires
        s.wf(),
    ensures
        spec_cancel(s, ticket).wf(),
        spec_cancel(s, ticket).free.len() + spec_cancel(s, ticket).deposited.len() == s.free.len()
            + s.deposited.len(),
        spec_cancel(s, ticket).outstanding == s.outstanding,
        spec_cancel(s, ticket).capacity == s.capacity,
{
    lemma_cancel_wf(s, ticket);
}

/// Shutdown completeness: close takes the free workers out to be shut down
/// at once and installs one drain ticket per worker still deposited or
/// leased; together they account for the whole capacity exactly once.
pub proof fn lemma_shutdown_complete<T>(s: PoolView<T>)
    requires
        s.wf(),
        !s.closed,
    ensures
        ({
            let (s2, free_out, remaining) = spec_close(s);
            &&& free_out.len() + remaining == s.capacity
            &&& remaining == s.deposited.len() + s.outstanding
            &&& s2.closed
            &&& s2.waiting.len() == remaining
            &&& s2.free.len() == 0
        }),
{
}

proof fn lemma_recv_wf<T>(s: PoolView<T>, ticket: u64)
    requires
        s.wf(),
    ensures
        spec_recv(s, ticket).0.wf(),
{
    if s.has_deposit(ticket) {
        let i = s.deposit_index(ticket);
        assert(0 <= i < s.deposited.len() && (s.deposited[i]).0 == ticket);
        let s1 = spec_recv(s, ticket).0;
        s.deposited.remove_ensures(i);
        assert forall|a: int, b: int|
            0 <= a < b < s1.deposited.len() implies (#[trigger] s1.deposited[a]).0
            != (#[trigger] s1.deposited[b]).0 by {
            let a0 = if a < i {
                a
            } else {
                a + 1
            };
            let b0 = if b < i {
                b
            } else {
                b + 1
            };
            assert(s1.deposited[a] == s.deposited[a0]);
            assert(s1.deposited[b] == s.deposited[b0]);
        }
        assert forall|a: int, b: int|
            0 <= a < s1.waiting.len() && 0 <= b < s1.deposited.len() implies #[trigger] s1
            .waiting[a] != (#[trigger] s1.deposited[b]).0 by {
            let b0 = if b < i {
                b
            } else {
                b + 1
            };
            assert(s1.deposited[b] == s.deposited[b0]);
        }
        assert forall|a: int|
            0 <= a < s1.deposited.len() implies (#[trigger] s1.deposited[a]).0
            < s1.next_ticket by {
            let a0 = if a < i {
                a
            } else {
                a + 1
            };
            assert(s1.deposited[a] == s.deposited[a0]);
        }
    }
}

proof fn lemma_cancel_mid_wf<T>(s: PoolView<T>, ticket: u64)
    requires
        s.wf(),
    ensures
        spec_cancel_mid(s, ticket).wf(),
{
    if s.in_waiting(ticket) {
        let i = s.waiting_index(ticket);
        assert(0 <= i < s.waiting.len() && s.waiting[i] == ticket);
        let s1 = spec_cancel_mid(s, ticket);
        s.waiting.remove_ensures(i);
        assert forall|a: int, b: int|
            0 <= a < b < s1.waiting.len() implies #[trigger] s1.waiting[a] != #[trigger] s1
            .waiting[b] by {
            let a0 = if a < i {
                a
            } else {
                a + 1
            };
            let b0 = if b < i {
                b
            } else {
                b + 1
            };
            assert(s1.waiting[a] == s.waiting[a0]);
            assert(s1.waiting[b] == s.waiting[b0]);
        }
        assert forall|a: int, b: int|
            0 <= a < s1.waiting.len() && 0 <= b < s1.deposited.len() implies #[trigger] s1
            .waiting[a] != (#[trigger] s1.deposited[b]).0 by {
            let a0 = if a < i {
                a
            } else {
                a + 1
            };
            assert(s1.waiting[a] == s.waiting[a0]);
        }
        assert forall|a: int|
            0 <= a < s1.waiting.len() implies #[trigger] s1.waiting[a] < s1.next_ticket by {
            let a0 = if a < i {
                a
            } else {
                a + 1
            };
            assert(s1.waiting[a] == s.waiting[a0]);
        }
    }
}

proof fn lemma_cancel_wf<T>(s: PoolView<T>, ticket: u64)
    requires
        s.wf(),
    ensures
        spec_cancel(s, ticket).wf(),
{
    lemma_cancel_mid_wf(s, ticket);
    let s1 = spec_cancel_mid(s, ticket);
    if s1.has_deposit(ticket) {
        let i = s1.deposit_index(ticket);
        assert(0 <= i < s1.deposited.len() && (s1.deposited[i]).0 == ticket);
        let obj = s1.deposited[i].1;
        let s2 = PoolView { deposited: s1.deposited.remove(i), ..s1 };
        s1.deposited.remove_ensures(i);
        assert forall|a: int, b: int|
            0 <= a < b < s2.deposited.len() implies (#[trigger] s2.deposited[a]).0
            != (#[trigger] s2.deposited[b]).0 by {
            let a0 = if a < i {
                a
            } else {
                a + 1
            };
            let b0 = if b < i {
                b
            } else {
                b + 1
            };
            assert(s2.deposited[a] == s1.deposited[a0]);
            assert(s2.deposited[b] == s1.deposited[b0]);
        }
        assert forall|a: int, b: int|
            0 <= a < s2.waiting.len() && 0 <= b < s2.deposited.len() implies #[trigger] s2
            .waiting[a] != (#[trigger] s2.deposited[b]).0 by {
            let b0 = if b < i {
                b
            } else {
                b + 1
            };
            assert(s2.deposited[b] == s1.deposited[b0]);
        }
        assert forall|a: int|
            0 <= a < s2.deposited.len() implies (#[trigger] s2.deposited[a]).0
            < s2.next_ticket by {
            let a0 = if a < i {
                a
            } else {
                a + 1
            };
            assert(s2.deposited[a] == s1.deposited[a0]);
        }
        let r = spec_cancel(s, ticket);
        if s2.waiting.len() > 0 {
            let w0 = s2.waiting[0];
            assert(r.waiting == s2.waiting.subrange(1, s2.waiting.len() as int));
            assert(r.deposited == s2.deposited.push((w0, obj)));
            assert forall|a: int, b: int|
                0 <= a < b < r.deposited.len() implies (#[trigger] r.deposited[a]).0
                != (#[trigger] r.deposited[b]).0 by {
                if b == r.deposited.len() - 1 {
                    assert(r.deposited[a] == s2.deposited[a]);
                    assert((r.deposited[b]).0 == s2.waiting[0]);
                    assert(s2.waiting[0] != (s2.deposited[a]).0);
                } else {
                    assert(r.deposited[a] == s2.deposited[a]);
                    assert(r.deposited[b] == s2.deposited[b]);
                }
            }
            assert forall|a: int, b: int|
                0 <= a < r.waiting.len() && 0 <= b < r.deposited.len() implies #[trigger] r
                .waiting[a] != (#[trigger] r.deposited[b]).0 by {
                assert(r.waiting[a] == s2.waiting[a + 1]);
                if b == r.deposited.len() - 1 {
                    assert((r.deposited[b]).0 == s2.waiting[0]);
                    assert(s2.waiting[0] != s2.waiting[a + 1]);
                } else {
                    assert(r.deposited[b] == s2.deposited[b]);
                }
            }
            assert forall|a: int, b: int|
                0 <= a < b < r.waiting.len() implies #[trigger] r.waiting[a] != #[trigger] r
                .waiting[b] by {
                assert(r.waiting[a] == s2.waiting[a + 1]);
                assert(r.waiting[b] == s2.waiting[b + 1]);
            }
            assert forall|a: int|
                0 <= a < r.waiting.len() implies #[trigger] r.waiting[a] < r.next_ticket by {
                assert(r.waiting[a] == s2.waiting[a + 1]);
            }
            assert forall|a: int|
                0 <= a < r.deposited.len() implies (#[trigger] r.deposited[a]).0
                < r.next_ticket by {
                if a < r.deposited.len() - 1 {
                    assert(r.deposited[a] == s2.deposited[a]);
                } else {
                    assert((r.deposited[a]).0 == s2.waiting[0]);
                }
            }
        }
    }
}

proof fn lemma_drain_tickets_wf<T>(s: PoolView<T>, base: nat, remaining: nat, s0: PoolView<T>)
    requires
        s0.wf(),
        !s0.closed,
        base == s0.next_ticket,
        base + remaining <= u64::MAX,
        s.closed,
        s.capacity == s0.capacity,
        s.deposited == s0.deposited,
        s.free.len() == 0,
        s.outstanding == s0.outstanding,
        s.waiting == drain_tickets(base, remaining),
        s.next_ticket == base + remaining,
    ensures
        s.wf(),
{
    assert(forall|i: int|
        0 <= i < s.waiting.len() ==> #[trigger] s.waiting[i] == (base + i) as u64 && s.waiting[i]
            >= base);
}

} // verus!
