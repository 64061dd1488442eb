//! A multi-producer, single-consumer channel.
//!
//! Values travel through one shared queue guarded by a mutual-exclusion lock;
//! a condition signal bound to the same lock wakes a waiting receiver when a
//! value arrives or the last producer departs. The receiver keeps a private
//! buffer: when it pops a value and more are queued, it takes the whole rest
//! of the queue along in the same critical section, so later receives need no
//! lock at all.

use std::collections::VecDeque;
use vstd::prelude::*;

verus! {

/// One receive step on the queue contents `c`: the head value, if any, and
/// what remains afterwards.
pub open spec fn recv_step<T>(c: Seq<T>) -> (Option<T>, Seq<T>) {
    if c.len() == 0 {
        (None, c)
    } else {
        (Some(c[0]), c.skip(1))
    }
}

/// One completed send appends its value to the queue contents.
pub open spec fn send_step<T>(c: Seq<T>, v: T) -> Seq<T> {
    c.push(v)
}

/// The queue contents after the sends of `vs` complete in order on top of `c`.
pub open spec fn send_all<T>(c: Seq<T>, vs: Seq<T>) -> Seq<T>
    decreases vs.len(),
{
    if vs.len() == 0 {
        c
    } else {
        send_all(send_step(c, vs[0]), vs.skip(1))
    }
}

/// Everything a receiver gets, in order, when it drains contents `c` until
/// the channel reports closure.
pub open spec fn drain_all<T>(c: Seq<T>) -> Seq<T>
    decreases c.len(),
{
    if c.len() == 0 {
        Seq::empty()
    } else {
        seq![c[0]] + drain_all(c.skip(1))
    }
}

/// A receive must wait exactly while nothing is queued and a producer remains.
pub open spec fn waits<T>(c: Seq<T>, senders: nat) -> bool {
    c.len() == 0 && senders > 0
}

/// The channel is finished exactly when it is drained and every producer is
/// gone; a receive then reports closure instead of waiting.
pub open spec fn finished<T>(c: Seq<T>, senders: nat) -> bool {
    c.len() == 0 && senders == 0
}

/// One producer departure on a count of `n`; the count never goes below
/// zero.
pub open spec fn departure(n: nat) -> nat {
    if n > 0 {
        (n - 1) as nat
    } else {
        0
    }
}

/// The producer count after `j` departures, one at a time, from a count of
/// `n`.
pub open spec fn departures(n: nat, j: nat) -> nat
    decreases j,
{
    if j == 0 {
        n
    } else {
        departure(departures(n, (j - 1) as nat))
    }
}

/// The state behind the channel's lock: the shared queue, holding values in
/// the order their sends acquired the lock, and the number of live producer
/// handles.
pub(crate) struct Inner<T> {
    pub(crate) queue: VecDeque<T>,
    pub(crate) senders: usize,
}

impl<T> Inner<T> {
    /// A receive taking this state would have to wait for a producer.
    pub(crate) open spec fn must_wait_spec(self) -> bool {
        waits(self.queue@, self.senders as nat)
    }

    /// This state lets a receive decide at once: a value is queued, or no
    /// producer remains.
    pub(crate) open spec fn ready_spec(self) -> bool {
        !self.must_wait_spec()
    }

    pub(crate) fn must_wait(&self) -> (r: bool)
        ensures
            r == self.must_wait_spec(),
    {
        self.queue.len() == 0 && self.senders > 0
    }

    /// A completed send: the value goes to the back of the queue.
    pub(crate) fn enqueue(&mut self, t: T)
        ensures
            final(self).queue@ == send_step(old(self).queue@, t),
            final(self).senders == old(self).senders,
    {
        self.queue.push_back(t);
    }

    /// One more producer handle; the count saturates at the machine limit,
    /// which no set of live handles can reach.
    pub(crate) fn add_sender(&mut self)
        ensures
            final(self).queue@ == old(self).queue@,
            final(self).senders as int == if old(self).senders < usize::MAX {
                old(self).senders + 1
            } else {
                old(self).senders as int
            },
    {
        if self.senders < usize::MAX {
            self.senders = self.senders + 1;
        }
    }

    /// One producer handle departs: exactly one `departure` step on the
    /// count, with the queue untouched.
    pub(crate) fn remove_sender(&mut self)
        ensures
            final(self).queue@ == old(self).queue@,
            final(self).senders as nat == departure(old(self).senders as nat),
        opens_invariants none
        no_unwind
    {
        if self.senders > 0 {
            self.senders = self.senders - 1;
        }
    }

    /// The state a channel begins with: nothing queued, one producer.
    pub(crate) fn starting() -> (r: Self)
        ensures
            r.queue@ == Seq::<T>::empty(),
            r.senders == 1,
    {
        Inner { queue: VecDeque::new(), senders: 1 }
    }

    /// One receive decision, taken under the lock once waiting is over: pop
    /// the head of the queue, and when more values remain move them all into
    /// the receiver's private buffer in this same critical section; `None`
    /// reports a finished channel.
    pub(crate) fn poll_step(&mut self, buffer: &mut VecDeque<T>) -> (r: Option<T>)
        requires
            old(self).ready_spec(),
            old(buffer)@.len() == 0,
        ensures
            final(self).senders == old(self).senders,
            final(self).queue@.len() == 0,
            r == recv_step(old(self).queue@).0,
            r is Some ==> final(buffer)@ == recv_step(old(self).queue@).1,
            r is None ==> final(buffer)@ == old(buffer)@ && finished(
                old(self).queue@,
                old(self).senders as nat,
            ),
    {
        match self.queue.pop_front() {
            Some(t) => {
                if self.queue.len() > 0 {
                    core::mem::swap(buffer, &mut self.queue);
                }
                proof {
                    assert(old(self).queue@.subrange(1, old(self).queue@.len() as int)
                        =~= old(self).queue@.skip(1));
                }
                Some(t)
            },
            None => None,
        }
    }
}

/// The shared core of one channel: a slot holding the locked state, guarded
/// by a mutual-exclusion lock, with a condition signal bound to that same
/// lock. std's `Mutex`, `Condvar` and `Arc` carry no vstd specification, so
/// the whole cell is opaque here and is reached only through the trusted
/// methods below; all state kept in it is of the verified type `Inner`.
#[verifier::external_body]
#[verifier::reject_recursive_types(T)]
pub(crate) struct SharedState<T> {
    cell: std::sync::Arc<(std::sync::Mutex<Option<Inner<T>>>, std::sync::Condvar)>,
}

impl<T> SharedState<T> {
    /// Relies on `Mutex::new`, `Condvar::new` and `Arc::new`: builds the
    /// monitor that every handle of one channel shares, holding `start`.
    #[verifier::external_body]
    pub(crate) fn new(start: Inner<T>) -> Self {
        SharedState {
            cell: std::sync::Arc::new(
                (std::sync::Mutex::new(Some(start)), std::sync::Condvar::new()),
            ),
        }
    }

    /// Relies on `Arc::clone`: returns a handle to the same shared core.
    #[verifier::external_body]
    pub(crate) fn clone_ref(&self) -> Self {
        SharedState { cell: std::sync::Arc::clone(&self.cell) }
    }

    /// Relies on `Mutex::lock` and `Condvar::wait_while`: takes the locked
    /// state out of the slot, waiting while another holder has it out. The
    /// `unwrap`s cannot fire: the lock can only be poisoned by a failure
    /// while a guard is alive, every guard lives inside these trusted
    /// bodies, and the code run under one — a verified field check, a take,
    /// an assignment — cannot fail; the slot `unwrap` runs on a slot the
    /// predicate just proved occupied under that same lock. Hence the
    /// no-unwind claim.
    #[verifier::external_body]
    pub(crate) fn acquire(&self) -> Inner<T>
        opens_invariants none
        no_unwind
    {
        let mut guard = self
            .cell
            .1
            .wait_while(self.cell.0.lock().unwrap(), |slot| slot.is_none())
            .unwrap();
        guard.take().unwrap()
    }

    /// Relies on `Mutex::lock` and `Condvar::wait_while`, whose result makes
    /// the predicate false: takes the locked state once a receive can decide,
    /// waiting while the verified `must_wait` says a producer could still
    /// send. The predicate calls nothing but that verified method.
    #[verifier::external_body]
    pub(crate) fn acquire_ready(&self) -> (r: Inner<T>)
        ensures
            r.ready_spec(),
    {
        let mut guard = self
            .cell
            .1
            .wait_while(
                self.cell.0.lock().unwrap(),
                |slot: &mut Option<Inner<T>>| match slot {
                    Some(state) => state.must_wait(),
                    None => true,
                },
            )
            .unwrap();
        guard.take().unwrap()
    }

    /// Relies on `Mutex::lock` and `Condvar::notify_all`: puts the locked
    /// state back into the slot, releases the lock, and then signals, so
    /// every waiter re-checks what it waits for; a wake that finds nothing
    /// changed is re-checked and lost to no one. No unwind, for the same
    /// reason as `acquire`: poisoning is unreachable, and assignment and
    /// signalling cannot fail.
    #[verifier::external_body]
    pub(crate) fn release(&self, state: Inner<T>)
        opens_invariants none
        no_unwind
    {
        let mut guard = self.cell.0.lock().unwrap();
        *guard = Some(state);
        drop(guard);
        self.cell.1.notify_all();
    }
}

/// A cloneable producer handle. Cloning registers one more producer under
/// the lock; dropping de-registers it, and the last departure wakes a
/// waiting receiver so it observes closure.
#[verifier::reject_recursive_types(T)]
pub struct Sender<T> {
    shared: SharedState<T>,
}

impl<T> Sender<T> {
    /// Appends `t` to the back of the shared queue under the lock, then
    /// signals the receiver. An unbounded queue never makes this wait for
    /// room, and it cannot fail: with the receiver already gone the value
    /// stays queued until the channel itself is dropped, by design.
    pub fn send(&mut self, t: T) {
        let mut state = self.shared.acquire();
        state.enqueue(t);
        self.shared.release(state);
    }

    /// De-registers this producer under the lock. The release signals the
    /// receiver, so a waiting receive re-checks and, after the last
    /// departure, reports closure instead of waiting on.
    fn disconnect(&self)
        opens_invariants none
        no_unwind
    {
        let mut state = self.shared.acquire();
        state.remove_sender();
        self.shared.release(state);
    }
}

impl<T> Clone for Sender<T> {
    /// Registers one more producer under the same lock that departures take,
    /// so no departure can race the count past zero, then hands out a handle
    /// to the same shared core.
    fn clone(&self) -> Self {
        let mut state = self.shared.acquire();
        state.add_sender();
        self.shared.release(state);
        Sender { shared: self.shared.clone_ref() }
    }
}

impl<T> Drop for Sender<T> {
    /// The teardown is checked: one call into the verified `disconnect`,
    /// whose no-unwind claim rests on the trusted lock shell's.
    fn drop(&mut self)
        opens_invariants none
        no_unwind
    {
        self.disconnect();
    }
}

/// The single consumer handle: it pulls values in queue order, waiting until
/// one arrives or every producer is gone, and owns a private buffer that
/// drains without touching the lock.
#[verifier::reject_recursive_types(T)]
pub struct Receiver<T> {
    shared: SharedState<T>,
    buffer: VecDeque<T>,
}

impl<T> Receiver<T> {
    /// The values already moved out of the shared queue, in order; they come
    /// before anything still queued.
    pub closed spec fn buffered(&self) -> Seq<T> {
        self.buffer@
    }

    /// Returns the next value in channel order. The private buffer goes
    /// first, with no lock taken; otherwise this waits until a value is
    /// queued or every producer is gone. `None` means the channel is closed
    /// and drained — a terminal state, so every later call returns `None`
    /// again without waiting.
    pub fn recv(&mut self) -> (r: Option<T>)
        ensures
            old(self).buffered().len() > 0 ==> r == Some(old(self).buffered()[0])
                && final(self).buffered() == old(self).buffered().skip(1),
            r is None ==> old(self).buffered().len() == 0 && final(self).buffered().len() == 0,
    {
        if let Some(t) = self.buffer.pop_front() {
            proof {
                assert(old(self).buffer@.subrange(1, old(self).buffer@.len() as int)
                    =~= old(self).buffer@.skip(1));
            }
            return Some(t);
        }
        let mut state = self.shared.acquire_ready();
        let r = state.poll_step(&mut self.buffer);
        self.shared.release(state);
        r
    }
}

/// Builds one channel: a shared core with an empty queue and a producer
/// count of one, and the one `Sender` and one `Receiver` bound to it. It
/// neither waits nor fails.
pub fn channel<T>() -> (r: (Sender<T>, Receiver<T>))
    ensures
        r.1.buffered().len() == 0,
{
    let shared = SharedState::new(Inner::starting());
    let shared_rx = shared.clone_ref();
    (Sender { shared }, Receiver { shared: shared_rx, buffer: VecDeque::new() })
}

/// Sends append in lock order: after the sends of `vs` the queue holds the
/// old contents followed by `vs` itself.
pub proof fn lemma_send_all_appends<T>(c: Seq<T>, vs: Seq<T>)
    ensures
        send_all(c, vs) == c + vs,
    decreases vs.len(),
{
    if vs.len() == 0 {
        assert(c + vs =~= c);
    } else {
        lemma_send_all_appends(c.push(vs[0]), vs.skip(1));
        assert(c.push(vs[0]) + vs.skip(1) =~= c + vs);
    }
}

/// Draining returns the queue contents themselves, one by one and in order:
/// nothing is lost, duplicated or reordered on the way out.
pub proof fn lemma_drain_all_in_order<T>(c: Seq<T>)
    ensures
        drain_all(c) == c,
    decreases c.len(),
{
    if c.len() == 0 {
        assert(drain_all(c) =~= c);
    } else {
        lemma_drain_all_in_order(c.skip(1));
        assert(seq![c[0]] + c.skip(1) =~= c);
    }
}

/// FIFO order across all producers: sends completed in lock-acquisition
/// order `vs` on a channel that started empty are received in exactly that
/// order.
pub proof fn lemma_fifo<T>(vs: Seq<T>)
    ensures
        drain_all(send_all(Seq::<T>::empty(), vs)) == vs,
{
    lemma_send_all_appends(Seq::<T>::empty(), vs);
    assert(Seq::<T>::empty() + vs =~= vs);
    lemma_drain_all_in_order(vs);
}

/// No double delivery and no loss: whatever the interleaving that produced
/// the queue contents `c`, the multiset of values received while draining
/// equals the multiset of values sent.
pub proof fn lemma_conservation<T>(c: Seq<T>)
    ensures
        drain_all(c).to_multiset() == c.to_multiset(),
{
    lemma_drain_all_in_order(c);
}

/// A burst queued while the receiver stays away comes out exactly once each
/// and in queue order; since the queue interleaves the producers' completed
/// sends, each producer's own values keep their submission order.
pub proof fn lemma_bulk_drain<T>(burst: Seq<T>)
    ensures
        drain_all(burst) == burst,
        drain_all(burst).len() == burst.len(),
        drain_all(burst).to_multiset() == burst.to_multiset(),
{
    lemma_drain_all_in_order(burst);
}

/// Iterated departures subtract one each, as long as handles remain.
pub proof fn lemma_departures_linear(n: nat, j: nat)
    requires
        j <= n,
    ensures
        departures(n, j) == n - j,
    decreases j,
{
    if j > 0 {
        lemma_departures_linear(n, (j - 1) as nat);
    }
}

/// Multi-producer accounting: with the one original handle and `k` clones,
/// dropping handles one at a time — each drop one `departure` step, which is
/// exactly what `remove_sender` does to the count — after `j <= k`
/// departures a producer remains, so a drained channel still waits rather
/// than reporting closure; only after all `k + 1` departures is it finished,
/// and a waiting receive then reports closure.
pub proof fn lemma_sender_accounting<T>(k: nat, j: nat)
    requires
        j <= k,
    ensures
        departures(k + 1, j) == 1 + k - j,
        departures(k + 1, j) > 0,
        waits(Seq::<T>::empty(), departures(k + 1, j)),
        !finished(Seq::<T>::empty(), departures(k + 1, j)),
        departures(k + 1, k + 1) == 0,
        finished(Seq::<T>::empty(), departures(k + 1, k + 1)),
{
    lemma_departures_linear(k + 1, j);
    lemma_departures_linear(k + 1, k + 1);
}

} // verus!
