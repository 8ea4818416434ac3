use vstd::prelude::*;

verus! {

/// How one execution of a task ended.
#[derive(Clone, Copy, PartialEq, Eq, Structural, Debug)]
pub enum Exec {
    /// The task waits for something and will run again once woken.
    Pending,
    /// The task finished.
    Ready,
}

impl Exec {
    pub fn is_pending(self) -> (b: bool)
        ensures
            b == (self is Pending),
    {
        match self {
            Exec::Pending => true,
            Exec::Ready => false,
        }
    }
}

/// What a task has produced for whoever awaits it.
pub enum TaskResult<T> {
    /// Nothing yet.
    Pending,
    /// The value the task produced.
    Ready(T),
    /// Looked at: a value it held has been handed out.
    Polled,
}

impl<T> TaskResult<T> {
    /// Hands out the value when there is one; either way the result counts
    /// as looked at afterwards. Must not be called once it has been.
    pub fn poll(&mut self) -> (r: Option<T>)
        requires
            !(*old(self) is Polled),
        ensures
            *final(self) is Polled,
            match *old(self) {
                TaskResult::Ready(t) => r == Some(t),
                _ => r.is_none(),
            },
    {
        let mut taken = TaskResult::Polled;
        std::mem::swap(self, &mut taken);
        match taken {
            TaskResult::Pending => None,
            TaskResult::Ready(t) => Some(t),
            TaskResult::Polled => None,
        }
    }
}

/// Which list of the run loop holds a task.
#[derive(Clone, Copy, PartialEq, Eq, Structural, Debug)]
pub enum Membership {
    /// None: the task is running, finished, dropped, or its run loop is gone.
    Detached,
    /// The list of tasks to run.
    Waken,
    /// The list of tasks that wait to be woken.
    Pending,
}

/// The ticket that follows `t`; it wraps around at the largest `usize`.
pub open spec fn next_ticket(t: usize) -> usize {
    if t == usize::MAX {
        0
    } else {
        (t + 1) as usize
    }
}

/// The ticket `t` moved on `n` times.
pub open spec fn ticket_after(t: usize, n: nat) -> usize
    decreases n,
{
    if n == 0 {
        t
    } else {
        next_ticket(ticket_after(t, (n - 1) as nat))
    }
}

/// A ticket counts the wake-ups a task accepted, modulo the number of
/// `usize` values: moved on `n` times from `t`, it is `t + n` wrapped around.
pub proof fn lemma_ticket_counts(t: usize, n: nat)
    ensures
        ticket_after(t, n) as int == (t + n) % (usize::MAX as int + 1),
    decreases n,
{
    let m = usize::MAX as int + 1;
    if n == 0 {
        vstd::arithmetic::div_mod::lemma_small_mod(t as nat, m as nat);
    } else {
        lemma_ticket_counts(t, (n - 1) as nat);
        let a = ticket_after(t, (n - 1) as nat);
        vstd::arithmetic::div_mod::lemma_add_mod_noop(t + n - 1, 1, m);
        vstd::arithmetic::div_mod::lemma_small_mod(1, m as nat);
        if a == usize::MAX {
            assert((a + 1) % m == 0) by {
                vstd::arithmetic::div_mod::lemma_mod_add_multiples_vanish(0, m);
                vstd::arithmetic::div_mod::lemma_small_mod(0, m as nat);
            }
        } else {
            vstd::arithmetic::div_mod::lemma_small_mod((a + 1) as nat, m as nat);
        }
    }
}

/// A ticket does not come back: moved on at least once and fewer times than
/// there are `usize` values, it differs from where it started, so a waker
/// made with an old ticket stays without effect.
pub proof fn lemma_ticket_not_back(t: usize, n: nat)
    requires
        0 < n <= usize::MAX,
    ensures
        ticket_after(t, n) != t,
{
    let m = usize::MAX as int + 1;
    lemma_ticket_counts(t, n);
    if t + n < m {
        vstd::arithmetic::div_mod::lemma_small_mod((t + n) as nat, m as nat);
    } else {
        vstd::arithmetic::div_mod::lemma_mod_add_multiples_vanish(t + n - m, m);
        vstd::arithmetic::div_mod::lemma_small_mod((t + n - m) as nat, m as nat);
    }
}

/// What the run loop keeps of a task: its ticket, which counts the wake-ups
/// it accepted (a waker made with an older ticket has lost its effect), and
/// the list it is in.
pub struct RawTask {
    pub ticket: usize,
    pub list: Membership,
}

impl RawTask {
    /// Accepts a wake-up made with `ticket` if it is the current ticket,
    /// which then moves on to the next one.
    pub fn wake(&mut self, ticket: usize) -> (b: bool)
        ensures
            b == (old(self).ticket == ticket),
            final(self).list == old(self).list,
            final(self).ticket == if b {
                next_ticket(old(self).ticket)
            } else {
                old(self).ticket
            },
    {
        if self.ticket == ticket {
            self.advance();
            true
        } else {
            false
        }
    }

    /// Moves the ticket on, so that no waker made before has an effect.
    pub fn advance(&mut self)
        ensures
            final(self).list == old(self).list,
            final(self).ticket == next_ticket(old(self).ticket),
            final(self).ticket as int == (old(self).ticket as int + 1) % (usize::MAX as int + 1),
    {
        proof {
            lemma_ticket_counts(self.ticket, 1);
            assert(ticket_after(self.ticket, 0) == self.ticket);
        }
        if self.ticket == usize::MAX {
            self.ticket = 0;
        } else {
            self.ticket = self.ticket + 1;
        }
    }
}

/// The handle to a task of a run loop: the place of the task among the
/// run loop's tasks.
pub struct Task {
    id: usize,
}

impl Task {
    pub closed spec fn id_of(&self) -> usize {
        self.id
    }

    pub(crate) fn from_id(id: usize) -> (t: Task)
        ensures
            t.id_of() == id,
    {
        Task { id }
    }

    pub fn id(&self) -> (i: usize)
        ensures
            i == self.id_of(),
    {
        self.id
    }
}

/// A future that gives way once: its first poll asks to be woken and
/// reports that it is not done; the next one reports that it is.
pub struct Yield(bool);

impl Yield {
    pub closed spec fn has_yielded(&self) -> bool {
        self.0
    }

    /// Whether the future is done. When it is not, the caller must arrange
    /// for the task to be woken.
    pub fn poll(&mut self) -> (ready: bool)
        ensures
            ready == old(self).has_yielded(),
            final(self).has_yielded(),
    {
        if self.0 {
            true
        } else {
            self.0 = true;
            false
        }
    }
}

/// A future that gives way to the other tasks once.
pub fn yield_now() -> (y: Yield)
    ensures
        !y.has_yielded(),
{
    Yield(false)
}

} // verus!
