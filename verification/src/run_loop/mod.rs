pub mod task;

use self::task::{next_ticket, Exec, Membership, RawTask, Task};
use crate::binary_heap::{
    entries, entry, heap_ordered, layout, lemma_root_is_min, on_path, sifted_down, sifted_to_bottom, sifted_up,
    BinaryHeap, Node as HeapNode,
};
use crate::linked_list::{lemma_wf_facts, lemma_wf_frame, only_links_of, List, Node as ListNode, NodePtr};
use vstd::prelude::*;

verus! {

/// Where a run loop stands.
#[derive(Clone, Copy, PartialEq, Eq, Structural, Debug)]
pub enum Status {
    /// Not running.
    Quit,
    /// Running.
    Running,
    /// Running, and asked to stop.
    Quiting,
}

/// What a message to the run loop asks for.
#[derive(Clone, Copy, PartialEq, Eq, Structural, Debug)]
pub enum Msg {
    /// Stop running.
    Quit,
    /// Run a function; the function itself has run when the loop hears of it.
    Func,
}

/// What the caller of a running loop reports back after an [`Action`].
#[derive(Clone, Copy, PartialEq, Eq, Structural, Debug)]
pub enum Event {
    /// A message arrived.
    Message(Msg),
    /// No message was waiting.
    NoMessage,
    /// The deadline passed with no message.
    Timeout,
    /// The time now.
    Clock(u64),
    /// The timed action has run and asks to run again at this time, or never.
    Fired(Option<u64>),
    /// The task has run.
    Polled(Exec),
}

/// What a running loop asks its caller to do next.
#[derive(Clone, Copy, PartialEq, Eq, Structural, Debug)]
pub enum Action {
    /// Take a message if one is waiting; report `Message` or `NoMessage`.
    TryRecv,
    /// Read the clock; report `Clock`.
    ReadClock,
    /// Run the timed action `action`, due at `key`; report `Fired`.
    Fire { action: u64, key: u64 },
    /// Run the task, giving its wakers `ticket`; report `Polled`.
    Poll { task: NodePtr, ticket: usize },
    /// Wait for a message, until the deadline if there is one; report
    /// `Message` or `Timeout`.
    Wait(Option<u64>),
    /// Stop; `true` when a tick ended without being asked to quit.
    Done(bool),
}

/// The step a running loop is at.
#[derive(Clone, Copy, PartialEq, Eq, Structural, Debug)]
pub enum Phase {
    /// Not running.
    Idle,
    /// Taking the messages that wait, before anything else.
    DrainFirst,
    /// Waiting to learn the time, to run the timed actions that are due.
    Clock,
    /// A timed action runs.
    Firing,
    /// The task runs.
    Polling(NodePtr),
    /// Waiting for a message.
    Waiting,
    /// A tick takes the messages that wait, after everything else.
    DrainSecond,
}

/// The state of a run loop, as its contracts speak of it.
#[verifier::ext_equal]
pub struct LoopState {
    pub status: Status,
    pub phase: Phase,
    /// The loop only ticks: one round, then it stops.
    pub ticking: bool,
    /// The time the timed actions are compared with.
    pub now: u64,
    /// The time of the next timed action, once the due ones have run.
    pub deadline: Option<u64>,
    /// Some task has run since the timed actions were looked at.
    pub processed: bool,
    /// The timed actions: the time each is due, and the action.
    pub deadlines: Seq<HeapNode<u64>>,
    /// The tasks to run, in order.
    pub waken: Seq<NodePtr>,
    /// The tasks that wait to be woken, in the order they started to.
    pub pending: Seq<NodePtr>,
    /// The ticket of each task.
    pub tickets: Seq<usize>,
    /// The list that holds each task.
    pub lists: Seq<Membership>,
}

/// The ticket of each task of an arena.
pub closed spec fn tickets_of(ts: Seq<ListNode<RawTask>>) -> Seq<usize> {
    ts.map_values(|n: ListNode<RawTask>| n.data_of().ticket)
}

/// The list that holds each task of an arena.
pub closed spec fn lists_of(ts: Seq<ListNode<RawTask>>) -> Seq<Membership> {
    ts.map_values(|n: ListNode<RawTask>| n.data_of().list)
}

proof fn lemma_links_keep_data(before: Seq<ListNode<RawTask>>, after: Seq<ListNode<RawTask>>, ids: Seq<NodePtr>)
    requires
        only_links_of(before, after, ids),
    ensures
        tickets_of(after) == tickets_of(before),
        lists_of(after) == lists_of(before),
{
    assert(tickets_of(after) =~= tickets_of(before));
    assert(lists_of(after) =~= lists_of(before));
}

/// A running loop that was asked to stop; any other loop stays as it is.
pub open spec fn quit_posted(s: LoopState) -> LoopState {
    if s.status == Status::Running {
        LoopState { status: Status::Quiting, ..s }
    } else {
        s
    }
}

/// The loop after a wake-up of `task` with `ticket`: a task that waits to be
/// woken, and whose ticket that is, goes to the end of the tasks to run and
/// its ticket moves on; otherwise nothing changes.
pub open spec fn woken(s: LoopState, task: NodePtr, ticket: usize) -> LoopState {
    if s.lists[task as int] == Membership::Pending && s.tickets[task as int] == ticket {
        LoopState {
            tickets: s.tickets.update(task as int, next_ticket(s.tickets[task as int])),
            pending: s.pending.remove(s.pending.index_of(task)),
            waken: s.waken.push(task),
            lists: s.lists.update(task as int, Membership::Waken),
            ..s
        }
    } else {
        s
    }
}

/// A loop that runs timed actions and tasks, and takes messages, on behalf
/// of a caller that does the running and the waiting.
pub struct RunLoop {
    status: Status,
    phase: Phase,
    ticking: bool,
    now: u64,
    deadline: Option<u64>,
    processed: bool,
    deadlines: BinaryHeap<u64>,
    tasks: Vec<ListNode<RawTask>>,
    waken_tasks: List<RawTask>,
    pending_tasks: List<RawTask>,
}

impl View for RunLoop {
    type V = LoopState;

    closed spec fn view(&self) -> LoopState {
        LoopState {
            status: self.status,
            phase: self.phase,
            ticking: self.ticking,
            now: self.now,
            deadline: self.deadline,
            processed: self.processed,
            deadlines: self.deadlines@,
            waken: self.waken_tasks@,
            pending: self.pending_tasks@,
            tickets: tickets_of(self.tasks@),
            lists: lists_of(self.tasks@),
        }
    }
}

impl RunLoop {
    /// The membership of each task agrees with the lists, and a task in no
    /// list links to nothing.
    closed spec fn members_ok(&self) -> bool {
        forall|i: int|
            0 <= i < self.tasks@.len() ==> {
                &&& ((#[trigger] self.tasks@[i]).data_of().list == Membership::Waken
                    <==> self.waken_tasks@.contains(i as NodePtr))
                &&& (self.tasks@[i].data_of().list == Membership::Pending
                    <==> self.pending_tasks@.contains(i as NodePtr))
                &&& (self.tasks@[i].data_of().list == Membership::Detached
                    ==> self.tasks@[i].is_detached())
            }
    }

    /// The tasks and timed actions are consistent: both lists are linked
    /// through the tasks, the memberships agree with them, and the timed
    /// actions form a heap.
    closed spec fn core_ok(&self) -> bool {
        &&& self.tasks@.len() <= usize::MAX
        &&& self.waken_tasks.wf(self.tasks@)
        &&& self.pending_tasks.wf(self.tasks@)
        &&& self.members_ok()
        &&& self.deadlines.wf()
        &&& self.deadlines.is_heap()
    }

    /// The loop is consistent: both lists are linked through the tasks, the
    /// memberships agree with them, the timed actions form a heap, and the
    /// phase fits the status.
    pub closed spec fn wf(&self) -> bool {
        &&& self.core_ok()
        &&& (self.phase == Phase::Idle) == (self.status == Status::Quit)
        &&& (self.phase is Firing ==> self.deadlines@.len() > 0)
        &&& (self.phase == Phase::DrainSecond ==> self.ticking)
        &&& (self.phase matches Phase::Polling(id) ==> id < self.tasks@.len()
            && self.tasks@[id as int].data_of().list == Membership::Detached && self.processed)
    }

    /// A loop that is not running, with no task and no timed action.
    pub fn new() -> (rl: RunLoop)
        ensures
            rl.wf(),
            rl@ == (LoopState {
                status: Status::Quit,
                phase: Phase::Idle,
                ticking: false,
                now: 0,
                deadline: None,
                processed: false,
                deadlines: Seq::empty(),
                waken: Seq::empty(),
                pending: Seq::empty(),
                tickets: Seq::empty(),
                lists: Seq::empty(),
            }),
    {
        let rl = RunLoop {
            status: Status::Quit,
            phase: Phase::Idle,
            ticking: false,
            now: 0,
            deadline: None,
            processed: false,
            deadlines: BinaryHeap::new(),
            tasks: Vec::new(),
            waken_tasks: List::default(),
            pending_tasks: List::default(),
        };
        proof {
            assert(rl@.tickets =~= Seq::<usize>::empty());
            assert(rl@.lists =~= Seq::<Membership>::empty());
        }
        rl
    }

    pub fn status(&self) -> (s: Status)
        ensures
            s == self@.status,
    {
        self.status
    }

    /// Asks a running loop to stop: the status becomes `Quiting`, and the
    /// result says that a `Quit` message is to be sent. Otherwise nothing
    /// changes.
    pub fn post_quit(&mut self) -> (send: bool)
        requires
            old(self).wf(),
        ensures
            final(self).wf(),
            send == (old(self)@.status == Status::Running),
            final(self)@ == quit_posted(old(self)@),
    {
        if self.status == Status::Running {
            self.status = Status::Quiting;
            true
        } else {
            false
        }
    }
}

/// The status of the run loop.
pub fn status(rl: &RunLoop) -> (s: Status)
    ensures
        s == rl@.status,
{
    rl.status()
}

/// Registers a new task with the run loop; see [`RunLoop::spawn`].
pub fn spawn_task(rl: &mut RunLoop) -> (t: Task)
    requires
        old(rl).wf(),
        old(rl)@.tickets.len() < usize::MAX,
    ensures
        final(rl).wf(),
        t.id_of() == old(rl)@.tickets.len(),
        final(rl)@ == (LoopState {
            waken: old(rl)@.waken.push(t.id_of()),
            tickets: old(rl)@.tickets.push(0),
            lists: old(rl)@.lists.push(Membership::Waken),
            ..old(rl)@
        }),
{
    rl.spawn()
}

/// Asks a running loop to stop; see [`RunLoop::post_quit`].
pub fn post_quit(rl: &mut RunLoop) -> (send: bool)
    requires
        old(rl).wf(),
    ensures
        final(rl).wf(),
        send == (old(rl)@.status == Status::Running),
        final(rl)@ == quit_posted(old(rl)@),
{
    rl.post_quit()
}


impl RunLoop {
    /// Registers a new task, first in line to run after the tasks already
    /// waken, with ticket 0.
    pub fn spawn(&mut self) -> (t: Task)
        requires
            old(self).wf(),
            old(self)@.tickets.len() < usize::MAX,
        ensures
            final(self).wf(),
            t.id_of() == old(self)@.tickets.len(),
            final(self)@ == (LoopState {
                waken: old(self)@.waken.push(t.id_of()),
                tickets: old(self)@.tickets.push(0),
                lists: old(self)@.lists.push(Membership::Waken),
                ..old(self)@
            }),
    {
        let ghost t0 = self.tasks@;
        proof {
            lemma_wf_facts(&self.waken_tasks, t0);
            lemma_wf_facts(&self.pending_tasks, t0);
        }
        let id = self.tasks.len();
        self.tasks.push(ListNode::new(RawTask { ticket: 0, list: Membership::Detached }));
        proof {
            let t1 = self.tasks@;
            lemma_wf_frame(&self.waken_tasks, t0, t1);
            lemma_wf_frame(&self.pending_tasks, t0, t1);
            assert(!self.waken_tasks@.contains(id));
            assert(!self.pending_tasks@.contains(id));
            assert forall|i: int| 0 <= i < t1.len() implies {
                &&& ((#[trigger] t1[i]).data_of().list == Membership::Waken
                    <==> self.waken_tasks@.contains(i as NodePtr))
                &&& (t1[i].data_of().list == Membership::Pending
                    <==> self.pending_tasks@.contains(i as NodePtr))
                &&& (t1[i].data_of().list == Membership::Detached ==> t1[i].is_detached())
            } by {
                if i < t0.len() {
                    assert(t1[i] == t0[i]);
                }
            }
            assert(tickets_of(t1) =~= tickets_of(t0).push(0));
            assert(lists_of(t1) =~= lists_of(t0).push(Membership::Detached));
        }
        self.enlist(id, Membership::Waken);
        proof {
            assert(self@.lists =~= old(self)@.lists.push(Membership::Waken));
        }
        Task::from_id(id)
    }
}


proof fn lemma_push_contains(s: Seq<NodePtr>, x: NodePtr, y: NodePtr)
    ensures
        s.push(x).contains(y) <==> (s.contains(y) || y == x),
{
    if s.push(x).contains(y) && y != x {
        let k = choose|k: int| 0 <= k < s.push(x).len() && s.push(x)[k] == y;
        assert(s[k] == y);
    }
    if s.contains(y) {
        let k = choose|k: int| 0 <= k < s.len() && s[k] == y;
        assert(s.push(x)[k] == y);
    }
    assert(s.push(x)[s.len() as int] == x);
}

proof fn lemma_remove_contains(s: Seq<NodePtr>, k: int, y: NodePtr)
    requires
        s.no_duplicates(),
        0 <= k < s.len(),
    ensures
        s.remove(k).contains(y) <==> (s.contains(y) && y != s[k]),
{
    let r = s.remove(k);
    if r.contains(y) {
        let j = choose|j: int| 0 <= j < r.len() && r[j] == y;
        if j < k {
            assert(s[j] == y);
        } else {
            assert(s[j + 1] == y);
        }
    }
    if s.contains(y) && y != s[k] {
        let j = choose|j: int| 0 <= j < s.len() && s[j] == y;
        if j < k {
            assert(r[j] == y);
        } else {
            assert(r[j - 1] == y);
        }
    }
}

impl RunLoop {
    /// Sets the membership of `task`, which keeps its links and ticket.
    fn set_list(&mut self, task: NodePtr, list: Membership)
        requires
            task < old(self).tasks@.len(),
            old(self).waken_tasks.wf(old(self).tasks@),
            old(self).pending_tasks.wf(old(self).tasks@),
        ensures
            final(self).tasks@.len() == old(self).tasks@.len(),
            final(self).waken_tasks == old(self).waken_tasks,
            final(self).pending_tasks == old(self).pending_tasks,
            final(self).waken_tasks.wf(final(self).tasks@),
            final(self).pending_tasks.wf(final(self).tasks@),
            tickets_of(final(self).tasks@) == tickets_of(old(self).tasks@),
            lists_of(final(self).tasks@) == lists_of(old(self).tasks@).update(task as int, list),
            forall|i: int|
                0 <= i < final(self).tasks@.len() && i != task ==> #[trigger] final(self).tasks@[i]
                    == old(self).tasks@[i],
            final(self).tasks@[task as int].data_of().list == list,
            final(self).tasks@[task as int].next_of() == old(self).tasks@[task as int].next_of(),
            final(self).tasks@[task as int].prev_of() == old(self).tasks@[task as int].prev_of(),
            final(self).status == old(self).status,
            final(self).phase == old(self).phase,
            final(self).ticking == old(self).ticking,
            final(self).now == old(self).now,
            final(self).deadline == old(self).deadline,
            final(self).processed == old(self).processed,
            final(self).deadlines == old(self).deadlines,
    {
        let ghost t0 = self.tasks@;
        self.tasks[task].as_mut().list = list;
        proof {
            let t1 = self.tasks@;
            lemma_wf_frame(&self.waken_tasks, t0, t1);
            lemma_wf_frame(&self.pending_tasks, t0, t1);
            assert(tickets_of(t1) =~= tickets_of(t0));
            assert(lists_of(t1) =~= lists_of(t0).update(task as int, list));
        }
    }

    /// Accepts a wake-up of `task` made with `ticket` if that is the task's
    /// current ticket, which then moves on.
    pub fn wake(&mut self, task: NodePtr, ticket: usize) -> (b: bool)
        requires
            old(self).wf(),
            task < old(self)@.tickets.len(),
        ensures
            final(self).wf(),
            b == (old(self)@.tickets[task as int] == ticket),
            final(self)@ == (LoopState {
                tickets: if b {
                    old(self)@.tickets.update(task as int, next_ticket(old(self)@.tickets[task as int]))
                } else {
                    old(self)@.tickets
                },
                ..old(self)@
            }),
    {
        let ghost t0 = self.tasks@;
        let b = self.tasks[task].as_mut().wake(ticket);
        proof {
            let t1 = self.tasks@;
            lemma_wf_frame(&self.waken_tasks, t0, t1);
            lemma_wf_frame(&self.pending_tasks, t0, t1);
            assert(lists_of(t1) =~= lists_of(t0));
            if b {
                assert(tickets_of(t1) =~= tickets_of(t0).update(
                    task as int,
                    next_ticket(tickets_of(t0)[task as int]),
                ));
            } else {
                assert(tickets_of(t1) =~= tickets_of(t0));
            }
            assert(forall|i: int| 0 <= i < t1.len() && i != task ==> t1[i] == t0[i]);
            assert(self.members_ok());
        }
        b
    }

    /// Moves `task`, which waits to be woken, to the end of the tasks to run.
    pub fn pending_to_waken(&mut self, task: NodePtr)
        requires
            old(self).wf(),
            task < old(self)@.lists.len(),
            old(self)@.lists[task as int] == Membership::Pending,
        ensures
            final(self).wf(),
            final(self)@ == (LoopState {
                pending: old(self)@.pending.remove(old(self)@.pending.index_of(task)),
                waken: old(self)@.waken.push(task),
                lists: old(self)@.lists.update(task as int, Membership::Waken),
                ..old(self)@
            }),
    {
        proof {
            assert(lists_of(self.tasks@).len() == self.tasks@.len());
            assert(lists_of(self.tasks@)[task as int] == self.tasks@[task as int].data_of().list);
        }
        self.delist(task);
        self.enlist(task, Membership::Waken);
        proof {
            assert(self@.lists =~= old(self)@.lists.update(task as int, Membership::Waken));
        }
    }
}


impl RunLoop {
    /// Wakes `task` with a waker made with `ticket`: when the task waits to
    /// be woken and that is its current ticket, the ticket moves on and the
    /// task goes to the end of the tasks to run; otherwise nothing changes.
    /// The result says whether the wake-up took effect.
    pub fn wake_task(&mut self, task: NodePtr, ticket: usize) -> (woke: bool)
        requires
            old(self).wf(),
            task < old(self)@.tickets.len(),
        ensures
            final(self).wf(),
            woke == (old(self)@.lists[task as int] == Membership::Pending
                && old(self)@.tickets[task as int] == ticket),
            final(self)@ == woken(old(self)@, task, ticket),
    {
        proof {
            assert(tickets_of(self.tasks@).len() == self.tasks@.len());
            assert(lists_of(self.tasks@)[task as int] == self.tasks@[task as int].data_of().list);
        }
        if self.tasks[task].as_ref().list == Membership::Pending && self.wake(task, ticket) {
            self.pending_to_waken(task);
            true
        } else {
            false
        }
    }

    /// Lets go of `task`: a task in one of the lists leaves it. The result
    /// says whether it was in one.
    pub fn drop_task(&mut self, task: NodePtr) -> (listed: bool)
        requires
            old(self).wf(),
            task < old(self)@.tickets.len(),
        ensures
            final(self).wf(),
            listed == (old(self)@.lists[task as int] != Membership::Detached),
            final(self)@ == (match old(self)@.lists[task as int] {
                Membership::Detached => old(self)@,
                Membership::Waken => (LoopState {
                    waken: old(self)@.waken.remove(old(self)@.waken.index_of(task)),
                    lists: old(self)@.lists.update(task as int, Membership::Detached),
                    ..old(self)@
                }),
                Membership::Pending => (LoopState {
                    pending: old(self)@.pending.remove(old(self)@.pending.index_of(task)),
                    lists: old(self)@.lists.update(task as int, Membership::Detached),
                    ..old(self)@
                }),
            }),
    {
        proof {
            assert(lists_of(self.tasks@).len() == self.tasks@.len());
            assert(lists_of(self.tasks@)[task as int] == self.tasks@[task as int].data_of().list);
        }
        if self.tasks[task].as_ref().list == Membership::Detached {
            false
        } else {
            self.delist(task);
            true
        }
    }

    /// Takes the run loop apart, handing out the tasks it still held: those
    /// to run, in order, then those that wait to be woken.
    pub fn release_tasks(self) -> (released: Vec<NodePtr>)
        requires
            self.wf(),
        ensures
            released@ == self@.waken + self@.pending,
    {
        let mut rl = self;
        let mut released = rl.waken_tasks.clear(&rl.tasks);
        let mut pending = rl.pending_tasks.clear(&rl.tasks);
        released.append(&mut pending);
        released
    }

    /// Adds the timed action `action`, due at `key`.
    pub fn schedule(&mut self, key: u64, action: u64)
        requires
            old(self).wf(),
            old(self)@.deadlines.len() < isize::MAX,
            !(old(self)@.phase is Firing),
        ensures
            final(self).wf(),
            final(self)@.deadlines.len() == old(self)@.deadlines.len() + 1,
            entries(final(self)@.deadlines) == entries(old(self)@.deadlines).insert((key, action)),
            heap_ordered(final(self)@.deadlines),
            exists|r: int|
                sifted_up(
                    layout(old(self)@.deadlines).push((key, action)),
                    layout(final(self)@.deadlines),
                    0,
                    old(self)@.deadlines.len() as int,
                    r,
                ),
            final(self)@ == (LoopState { deadlines: final(self)@.deadlines, ..old(self)@ }),
    {
        self.deadlines.push(HeapNode::new(key, action));
    }
}


// ---------------------------------------------------------------------------
// How a running loop moves from step to step.
// ---------------------------------------------------------------------------

/// The loop has stopped.
pub open spec fn finish_state(s: LoopState) -> LoopState {
    LoopState { status: Status::Quit, phase: Phase::Idle, ..s }
}

/// The loop waits to learn the time.
pub open spec fn clock_state(s: LoopState) -> LoopState {
    LoopState { phase: Phase::Clock, ..s }
}

/// The loop takes the first task to run, or, when there is none, a tick
/// takes the messages that wait, a loop that has run tasks looks at the
/// timed actions again, and otherwise the loop waits for a message.
pub open spec fn tasks_next_state(s: LoopState) -> LoopState {
    if s.waken.len() > 0 {
        LoopState {
            waken: s.waken.drop_first(),
            lists: s.lists.update(s.waken[0] as int, Membership::Detached),
            processed: true,
            phase: Phase::Polling(s.waken[0]),
            ..s
        }
    } else if s.ticking {
        LoopState { phase: Phase::DrainSecond, ..s }
    } else if s.processed {
        clock_state(s)
    } else {
        LoopState { phase: Phase::Waiting, ..s }
    }
}

/// What the loop asks for along with [`tasks_next_state`].
pub open spec fn tasks_next_action(s: LoopState) -> Action {
    if s.waken.len() > 0 {
        Action::Poll { task: s.waken[0], ticket: s.tickets[s.waken[0] as int] }
    } else if s.ticking {
        Action::TryRecv
    } else if s.processed {
        Action::ReadClock
    } else {
        Action::Wait(s.deadline)
    }
}

/// The first timed action is due.
pub open spec fn is_due(s: LoopState) -> bool {
    s.deadlines.len() > 0 && s.deadlines[0].key_of() <= s.now
}

/// No timed action is due: the next deadline is that of the first one, and
/// no task has run yet.
pub open spec fn past_deadlines(s: LoopState) -> LoopState {
    LoopState {
        deadline: if s.deadlines.len() > 0 {
            Some(s.deadlines[0].key_of())
        } else {
            None
        },
        processed: false,
        ..s
    }
}

/// The loop runs the first timed action if it is due, and goes on to the
/// tasks otherwise.
pub open spec fn deadlines_state(s: LoopState) -> LoopState {
    if is_due(s) {
        LoopState { phase: Phase::Firing, ..s }
    } else {
        tasks_next_state(past_deadlines(s))
    }
}

/// What the loop asks for along with [`deadlines_state`].
pub open spec fn deadlines_action(s: LoopState) -> Action {
    if is_due(s) {
        Action::Fire { action: s.deadlines[0].value_of(), key: s.deadlines[0].key_of() }
    } else {
        tasks_next_action(past_deadlines(s))
    }
}

/// After the task `id` ran: a finished task's ticket moves on; a task that
/// waits goes to the end of the waiting tasks.
pub open spec fn placed_task(s: LoopState, id: NodePtr, exec: Exec) -> LoopState {
    if exec == Exec::Ready {
        LoopState { tickets: s.tickets.update(id as int, next_ticket(s.tickets[id as int])), ..s }
    } else {
        LoopState {
            lists: s.lists.update(id as int, Membership::Pending),
            pending: s.pending.push(id),
            ..s
        }
    }
}

/// After the running task ran.
pub open spec fn placed(s: LoopState, exec: Exec) -> LoopState {
    match s.phase {
        Phase::Polling(id) => placed_task(s, id, exec),
        _ => s,
    }
}

/// The timed actions `h2` are those of `h` after the first one ran and asked
/// to run again at `next`, or never: asked again, the first one takes its new
/// time and, if that is later, sifts down; never, the last one takes its
/// place, sinks to the bottom and sifts back up.
pub open spec fn fired(h: Seq<HeapNode<u64>>, next: Option<u64>, h2: Seq<HeapNode<u64>>) -> bool {
    &&& heap_ordered(h2)
    &&& match next {
        Some(k) => {
            let e = layout(h).update(0, (k, h[0].value_of()));
            &&& h2.len() == h.len()
            &&& entries(h2) == entries(h).insert((k, h[0].value_of())).remove(entry(h[0]))
            &&& k <= h[0].key_of() ==> layout(h2) == e
            &&& h[0].key_of() < k ==> exists|r: int| sifted_down(e, layout(h2), 0, r)
        },
        None => {
            &&& h2.len() + 1 == h.len()
            &&& entries(h2) == entries(h).remove(entry(h[0]))
            &&& h.len() > 1 ==> exists|r: int|
                sifted_to_bottom(layout(h).drop_last().update(0, entry(h.last())), layout(h2), 0, r)
        },
    }
}

/// The events a running loop can take at its step.
pub open spec fn expects(s: LoopState, ev: Event) -> bool {
    match ev {
        Event::Message(_) => s.phase == Phase::DrainFirst || s.phase == Phase::DrainSecond || s.phase
            == Phase::Waiting,
        Event::NoMessage => s.phase == Phase::DrainFirst || s.phase == Phase::DrainSecond,
        Event::Timeout => s.phase == Phase::Waiting,
        Event::Clock(_) => s.phase == Phase::Clock,
        Event::Fired(_) => s.phase == Phase::Firing,
        Event::Polled(_) => s.phase is Polling,
    }
}

/// The loop in state `s`, told `ev`, moves to `t` and asks for `a`.
pub open spec fn stepped(s: LoopState, ev: Event, t: LoopState, a: Action) -> bool {
    match ev {
        Event::Message(Msg::Quit) => t == finish_state(s) && a == Action::Done(false),
        Event::Message(Msg::Func) => if s.phase == Phase::Waiting {
            t == clock_state(s) && a == Action::ReadClock
        } else {
            t == s && a == Action::TryRecv
        },
        Event::NoMessage => if s.phase == Phase::DrainFirst {
            t == clock_state(s) && a == Action::ReadClock
        } else {
            t == finish_state(s) && a == Action::Done(true)
        },
        Event::Timeout => t == clock_state(s) && a == Action::ReadClock,
        Event::Clock(now) => t == deadlines_state(LoopState { now, ..s }) && a == deadlines_action(
            LoopState { now, ..s },
        ),
        Event::Fired(next) => fired(s.deadlines, next, t.deadlines) && t == deadlines_state(
            LoopState { deadlines: t.deadlines, ..s },
        ) && a == deadlines_action(LoopState { deadlines: t.deadlines, ..s }),
        Event::Polled(exec) => t == tasks_next_state(placed(s, exec)) && a == tasks_next_action(
            placed(s, exec),
        ),
    }
}

impl RunLoop {
    fn finish(&mut self, completed: bool) -> (a: Action)
        requires
            old(self).core_ok(),
        ensures
            final(self).wf(),
            final(self)@ == finish_state(old(self)@),
            a == Action::Done(completed),
    {
        self.status = Status::Quit;
        self.phase = Phase::Idle;
        Action::Done(completed)
    }

    fn read_clock(&mut self) -> (a: Action)
        requires
            old(self).core_ok(),
            old(self).status != Status::Quit,
        ensures
            final(self).wf(),
            final(self)@ == clock_state(old(self)@),
            a == Action::ReadClock,
    {
        self.phase = Phase::Clock;
        Action::ReadClock
    }

    fn tasks_next(&mut self) -> (a: Action)
        requires
            old(self).core_ok(),
            old(self).status != Status::Quit,
            old(self).phase == Phase::Clock,
        ensures
            final(self).wf(),
            final(self)@ == tasks_next_state(old(self)@),
            a == tasks_next_action(old(self)@),
    {
        let ghost t0 = self.tasks@;
        let ghost w0 = self.waken_tasks@;
        let ghost p0 = self.pending_tasks@;
        proof {
            lemma_wf_facts(&self.waken_tasks, t0);
            lemma_wf_facts(&self.pending_tasks, t0);
        }
        match self.waken_tasks.pop_front(&mut self.tasks) {
            Some(id) => {
                let ghost t1 = self.tasks@;
                proof {
                    lemma_links_keep_data(t0, t1, w0);
                    assert forall|j: int|
                        0 <= j < t0.len() && p0.contains(j as NodePtr) implies (#[trigger] t1[j]).next_of()
                        == t0[j].next_of() && t1[j].prev_of() == t0[j].prev_of() by {
                        assert(t0[j].data_of().list == Membership::Pending);
                        assert(!w0.contains(j as NodePtr));
                    }
                    lemma_wf_frame(&self.pending_tasks, t0, t1);
                    assert(w0.contains(id));
                }
                self.set_list(id, Membership::Detached);
                self.processed = true;
                self.phase = Phase::Polling(id);
                let ticket = self.tasks[id].as_ref().ticket;
                proof {
                    let t2 = self.tasks@;
                    let w2 = self.waken_tasks@;
                    assert(w2 == w0.drop_first());
                    assert forall|i: int| 0 <= i < t2.len() implies {
                        &&& ((#[trigger] t2[i]).data_of().list == Membership::Waken <==> w2.contains(
                            i as NodePtr,
                        ))
                        &&& (t2[i].data_of().list == Membership::Pending <==> p0.contains(
                            i as NodePtr,
                        ))
                        &&& (t2[i].data_of().list == Membership::Detached ==> t2[i].is_detached())
                    } by {
                        assert(i as NodePtr as int == i);
                        lemma_remove_contains(w0, 0, i as NodePtr);
                        assert(w0.remove(0) =~= w0.drop_first());
                        if i != id {
                            assert(t2[i] == t1[i]);
                            assert(t1[i].data_of() == t0[i].data_of());
                            if t0[i].data_of().list == Membership::Detached {
                                assert(!w0.contains(i as NodePtr));
                                assert(t1[i] == t0[i]);
                            }
                        } else {
                            assert(!p0.contains(i as NodePtr));
                        }
                    }
                    assert(tickets_of(t2)[id as int] == t2[id as int].data_of().ticket);
                    assert(self@.lists =~= tasks_next_state(old(self)@).lists);
                }
                Action::Poll { task: id, ticket }
            },
            None => {
                if self.ticking {
                    self.phase = Phase::DrainSecond;
                    Action::TryRecv
                } else if self.processed {
                    self.read_clock()
                } else {
                    self.phase = Phase::Waiting;
                    Action::Wait(self.deadline)
                }
            },
        }
    }
}


impl RunLoop {
    fn deadlines_step(&mut self) -> (a: Action)
        requires
            old(self).core_ok(),
            old(self).status != Status::Quit,
            old(self).phase == Phase::Clock,
        ensures
            final(self).wf(),
            final(self)@ == deadlines_state(old(self)@),
            a == deadlines_action(old(self)@),
    {
        let first = match self.deadlines.peek() {
            Some(n) => Some((*HeapNode::key(n), *n.as_ref())),
            None => None,
        };
        match first {
            Some((key, action)) => {
                if key <= self.now {
                    self.phase = Phase::Firing;
                    Action::Fire { action, key }
                } else {
                    self.deadline = Some(key);
                    self.processed = false;
                    self.tasks_next()
                }
            },
            None => {
                self.deadline = None;
                self.processed = false;
                self.tasks_next()
            },
        }
    }

    fn place(&mut self, id: NodePtr, exec: Exec)
        requires
            old(self).core_ok(),
            id < old(self).tasks@.len(),
            old(self).tasks@[id as int].data_of().list == Membership::Detached,
        ensures
            final(self).core_ok(),
            final(self)@ == placed_task(old(self)@, id, exec),
    {
        let ghost t0 = self.tasks@;
        let ghost w0 = self.waken_tasks@;
        let ghost p0 = self.pending_tasks@;
        proof {
            lemma_wf_facts(&self.waken_tasks, t0);
            lemma_wf_facts(&self.pending_tasks, t0);
            assert(!w0.contains(id));
            assert(!p0.contains(id));
        }
        match exec {
            Exec::Ready => {
                self.tasks[id].as_mut().advance();
                proof {
                    let t1 = self.tasks@;
                    lemma_wf_frame(&self.waken_tasks, t0, t1);
                    lemma_wf_frame(&self.pending_tasks, t0, t1);
                    assert(lists_of(t1) =~= lists_of(t0));
                    assert(tickets_of(t1) =~= tickets_of(t0).update(
                        id as int,
                        next_ticket(tickets_of(t0)[id as int]),
                    ));
                    assert(forall|i: int| 0 <= i < t1.len() && i != id ==> t1[i] == t0[i]);
                    assert(self.members_ok());
                }
            },
            Exec::Pending => {
                self.enlist(id, Membership::Pending);
            },
        }
    }

    /// Starts running: the status becomes `Running`, and the loop first
    /// takes the messages that wait. A loop that `ticking` stops after one
    /// round.
    pub fn begin(&mut self, ticking: bool) -> (a: Action)
        requires
            old(self).wf(),
            old(self)@.status == Status::Quit,
        ensures
            final(self).wf(),
            final(self)@ == (LoopState {
                status: Status::Running,
                phase: Phase::DrainFirst,
                ticking,
                ..old(self)@
            }),
            a == Action::TryRecv,
    {
        self.status = Status::Running;
        self.phase = Phase::DrainFirst;
        self.ticking = ticking;
        Action::TryRecv
    }

    /// Starts running until asked to quit; see [`RunLoop::begin`].
    pub fn run(&mut self) -> (a: Action)
        requires
            old(self).wf(),
            old(self)@.status == Status::Quit,
        ensures
            final(self).wf(),
            final(self)@ == (LoopState {
                status: Status::Running,
                phase: Phase::DrainFirst,
                ticking: false,
                ..old(self)@
            }),
            a == Action::TryRecv,
    {
        self.begin(false)
    }

    /// Starts one round: the messages that wait, the timed actions that are
    /// due, the tasks to run, and the messages that wait then; see
    /// [`RunLoop::begin`].
    pub fn tick(&mut self) -> (a: Action)
        requires
            old(self).wf(),
            old(self)@.status == Status::Quit,
        ensures
            final(self).wf(),
            final(self)@ == (LoopState {
                status: Status::Running,
                phase: Phase::DrainFirst,
                ticking: true,
                ..old(self)@
            }),
            a == Action::TryRecv,
    {
        self.begin(true)
    }

    /// Whether the loop can take `ev` at its step.
    pub fn expects(&self, ev: Event) -> (b: bool)
        ensures
            b == expects(self@, ev),
    {
        match ev {
            Event::Message(_) => self.phase == Phase::DrainFirst || self.phase == Phase::DrainSecond
                || self.phase == Phase::Waiting,
            Event::NoMessage => self.phase == Phase::DrainFirst || self.phase == Phase::DrainSecond,
            Event::Timeout => self.phase == Phase::Waiting,
            Event::Clock(_) => self.phase == Phase::Clock,
            Event::Fired(_) => self.phase == Phase::Firing,
            Event::Polled(_) => match self.phase {
                Phase::Polling(_) => true,
                _ => false,
            },
        }
    }

    /// Takes what the caller reports of the last action, and says what to do
    /// next.
    pub fn step(&mut self, ev: Event) -> (a: Action)
        requires
            old(self).wf(),
            expects(old(self)@, ev),
        ensures
            final(self).wf(),
            stepped(old(self)@, ev, final(self)@, a),
    {
        match ev {
            Event::Message(Msg::Quit) => self.finish(false),
            Event::Message(Msg::Func) => {
                if self.phase == Phase::Waiting {
                    self.read_clock()
                } else {
                    Action::TryRecv
                }
            },
            Event::NoMessage => {
                if self.phase == Phase::DrainFirst {
                    self.read_clock()
                } else {
                    self.finish(true)
                }
            },
            Event::Timeout => self.read_clock(),
            Event::Clock(now) => {
                self.now = now;
                self.phase = Phase::Clock;
                self.deadlines_step()
            },
            Event::Fired(next) => {
                let ghost s = self@;
                self.phase = Phase::Clock;
                match next {
                    Some(k) => {
                        let ghost h = s.deadlines;
                        let ghost e = layout(h).update(0, (k, h[0].value_of()));
                        self.deadlines.update(0, k);
                        proof {
                            if k <= h[0].key_of() {
                                let t = layout(self@.deadlines);
                                if k < h[0].key_of() {
                                    let r = choose|r: int| sifted_up(e, t, 0, 0, r);
                                    assert forall|j: int| 0 < j < t.len() implies t[j] == e[j] by {
                                        assert(!on_path(j, r, 0));
                                    }
                                }
                                assert(t =~= e);
                            }
                        }
                    },
                    None => {
                        self.deadlines.remove(0);
                    },
                }
                let ghost m = self@;
                proof {
                    assert(m == (LoopState { deadlines: m.deadlines, phase: Phase::Clock, ..s }));
                }
                self.deadlines_step()
            },
            Event::Polled(exec) => {
                let ghost s = self@;
                match self.phase {
                    Phase::Polling(id) => {
                        self.phase = Phase::Clock;
                        self.place(id, exec);
                        proof {
                            assert(self@ == (LoopState { phase: Phase::Clock, ..placed(s, exec) }));
                        }
                    },
                    _ => {},
                }
                self.tasks_next()
            },
        }
    }
}


/// A running loop stops exactly when it says `Done`: the step that asks for
/// `Done` leaves the status `Quit` and the loop idle, and every other step
/// leaves it running.
pub proof fn lemma_done_iff_stopped(s: LoopState, ev: Event, t: LoopState, a: Action)
    requires
        s.status != Status::Quit,
        expects(s, ev),
        stepped(s, ev, t, a),
    ensures
        (a is Done) <==> (t.status == Status::Quit),
        (a is Done) ==> t.phase == Phase::Idle,
        !(a is Done) ==> t.status == s.status,
{
}

/// A message to quit ends a running loop wherever it is heard, with the
/// result `false`.
pub proof fn lemma_quit_message_stops(s: LoopState, t: LoopState, a: Action)
    requires
        expects(s, Event::Message(Msg::Quit)),
        stepped(s, Event::Message(Msg::Quit), t, a),
    ensures
        a == Action::Done(false),
        t.status == Status::Quit,
        t.phase == Phase::Idle,
{
}

/// Asking a loop to quit twice is asking it once: after the first time the
/// loop is no longer `Running`, so the second time sends nothing and changes
/// nothing.
pub proof fn lemma_post_quit_once(s: LoopState)
    ensures
        quit_posted(s).status != Status::Running,
        quit_posted(quit_posted(s)) == quit_posted(s),
{
}

/// The loop only waits for a message when no task is ready to run and no
/// timed action is due, and then it waits until the first timed action, if
/// there is one.
pub proof fn lemma_waits_only_when_idle(rl: RunLoop, ev: Event, t: LoopState, a: Action)
    requires
        rl.wf(),
        expects(rl@, ev),
        stepped(rl@, ev, t, a),
        a is Wait,
    ensures
        t.waken.len() == 0,
        t.deadlines.len() > 0 ==> t.now < t.deadlines[0].key_of(),
        a == Action::Wait(
            if t.deadlines.len() > 0 {
                Some(t.deadlines[0].key_of())
            } else {
                None
            },
        ),
{
}

/// A waker acts at most once: the ticket it carries is no longer the task's
/// ticket after it has been accepted.
pub proof fn lemma_ticket_moves(t: usize)
    ensures
        next_ticket(t) != t,
{
}


impl RunLoop {
    /// How many tasks the loop has registered.
    pub fn task_count(&self) -> (n: usize)
        requires
            self.wf(),
        ensures
            n == self@.tickets.len(),
    {
        proof {
            assert(tickets_of(self.tasks@).len() == self.tasks@.len());
        }
        self.tasks.len()
    }

    /// How many timed actions wait.
    pub fn deadline_count(&self) -> (n: usize)
        ensures
            n == self@.deadlines.len(),
    {
        self.deadlines.len()
    }

    pub fn phase(&self) -> (p: Phase)
        ensures
            p == self@.phase,
    {
        self.phase
    }

    /// The list that holds `task`.
    pub fn membership(&self, task: NodePtr) -> (m: Membership)
        requires
            self.wf(),
            task < self@.tickets.len(),
        ensures
            m == self@.lists[task as int],
    {
        proof {
            assert(tickets_of(self.tasks@).len() == self.tasks@.len());
        }
        self.tasks[task].as_ref().list
    }

    /// The ticket of `task`.
    pub fn ticket(&self, task: NodePtr) -> (t: usize)
        requires
            self.wf(),
            task < self@.tickets.len(),
        ensures
            t == self@.tickets[task as int],
    {
        proof {
            assert(tickets_of(self.tasks@).len() == self.tasks@.len());
        }
        self.tasks[task].as_ref().ticket
    }
}


impl RunLoop {
    /// Links the task `id`, in no list, in at the end of `list`.
    fn enlist(&mut self, id: NodePtr, list: Membership)
        requires
            old(self).core_ok(),
            id < old(self).tasks@.len(),
            old(self).tasks@[id as int].data_of().list == Membership::Detached,
            list != Membership::Detached,
        ensures
            final(self).core_ok(),
            final(self).phase == old(self).phase,
            final(self).status == old(self).status,
            final(self).tasks@.len() == old(self).tasks@.len(),
            final(self)@ == (if list == Membership::Waken {
                (LoopState {
                    waken: old(self)@.waken.push(id),
                    lists: old(self)@.lists.update(id as int, Membership::Waken),
                    ..old(self)@
                })
            } else {
                (LoopState {
                    pending: old(self)@.pending.push(id),
                    lists: old(self)@.lists.update(id as int, Membership::Pending),
                    ..old(self)@
                })
            }),
    {
        let ghost t0 = self.tasks@;
        let ghost w0 = self.waken_tasks@;
        let ghost p0 = self.pending_tasks@;
        proof {
            lemma_wf_facts(&self.waken_tasks, t0);
            lemma_wf_facts(&self.pending_tasks, t0);
            assert(!w0.contains(id));
            assert(!p0.contains(id));
        }
        if list == Membership::Waken {
            self.waken_tasks.push_back(&mut self.tasks, id);
            proof {
                let t1 = self.tasks@;
                lemma_links_keep_data(t0, t1, w0.push(id));
                assert forall|j: int|
                    0 <= j < t0.len() && p0.contains(j as NodePtr) implies (#[trigger] t1[j]).next_of()
                    == t0[j].next_of() && t1[j].prev_of() == t0[j].prev_of() by {
                    assert(t0[j].data_of().list == Membership::Pending);
                    lemma_push_contains(w0, id, j as NodePtr);
                }
                lemma_wf_frame(&self.pending_tasks, t0, t1);
            }
        } else {
            self.pending_tasks.push_back(&mut self.tasks, id);
            proof {
                let t1 = self.tasks@;
                lemma_links_keep_data(t0, t1, p0.push(id));
                assert forall|j: int|
                    0 <= j < t0.len() && w0.contains(j as NodePtr) implies (#[trigger] t1[j]).next_of()
                    == t0[j].next_of() && t1[j].prev_of() == t0[j].prev_of() by {
                    assert(t0[j].data_of().list == Membership::Waken);
                    lemma_push_contains(p0, id, j as NodePtr);
                }
                lemma_wf_frame(&self.waken_tasks, t0, t1);
            }
        }
        let ghost t1 = self.tasks@;
        self.set_list(id, list);
        proof {
            let t2 = self.tasks@;
            let w2 = self.waken_tasks@;
            let p2 = self.pending_tasks@;
            assert forall|i: int| 0 <= i < t2.len() implies {
                &&& ((#[trigger] t2[i]).data_of().list == Membership::Waken <==> w2.contains(
                    i as NodePtr,
                ))
                &&& (t2[i].data_of().list == Membership::Pending <==> p2.contains(i as NodePtr))
                &&& (t2[i].data_of().list == Membership::Detached ==> t2[i].is_detached())
            } by {
                assert(i as NodePtr as int == i);
                lemma_push_contains(w0, id, i as NodePtr);
                lemma_push_contains(p0, id, i as NodePtr);
                if i != id {
                    assert(t2[i] == t1[i]);
                    assert(t1[i].data_of() == t0[i].data_of());
                    if t0[i].data_of().list == Membership::Detached {
                        assert(!w0.push(id).contains(i as NodePtr));
                        assert(!p0.push(id).contains(i as NodePtr));
                        assert(t1[i] == t0[i]);
                    }
                }
            }
        }
    }

    /// Unlinks the task `id` from the list that holds it.
    fn delist(&mut self, id: NodePtr)
        requires
            old(self).core_ok(),
            id < old(self).tasks@.len(),
            old(self).tasks@[id as int].data_of().list != Membership::Detached,
        ensures
            final(self).core_ok(),
            final(self).phase == old(self).phase,
            final(self).status == old(self).status,
            final(self).tasks@.len() == old(self).tasks@.len(),
            final(self).tasks@[id as int].data_of().list == Membership::Detached,
            final(self)@ == (if old(self)@.lists[id as int] == Membership::Waken {
                (LoopState {
                    waken: old(self)@.waken.remove(old(self)@.waken.index_of(id)),
                    lists: old(self)@.lists.update(id as int, Membership::Detached),
                    ..old(self)@
                })
            } else {
                (LoopState {
                    pending: old(self)@.pending.remove(old(self)@.pending.index_of(id)),
                    lists: old(self)@.lists.update(id as int, Membership::Detached),
                    ..old(self)@
                })
            }),
    {
        let ghost t0 = self.tasks@;
        let ghost w0 = self.waken_tasks@;
        let ghost p0 = self.pending_tasks@;
        proof {
            lemma_wf_facts(&self.waken_tasks, t0);
            lemma_wf_facts(&self.pending_tasks, t0);
            assert(t0.len() <= usize::MAX);
            assert(lists_of(t0)[id as int] == t0[id as int].data_of().list);
        }
        if self.tasks[id].as_ref().list == Membership::Waken {
            self.waken_tasks.remove(&mut self.tasks, id);
            proof {
                let t1 = self.tasks@;
                lemma_links_keep_data(t0, t1, w0);
                assert forall|j: int|
                    0 <= j < t0.len() && p0.contains(j as NodePtr) implies (#[trigger] t1[j]).next_of()
                    == t0[j].next_of() && t1[j].prev_of() == t0[j].prev_of() by {
                    assert(t0[j].data_of().list == Membership::Pending);
                }
                lemma_wf_frame(&self.pending_tasks, t0, t1);
            }
        } else {
            self.pending_tasks.remove(&mut self.tasks, id);
            proof {
                let t1 = self.tasks@;
                lemma_links_keep_data(t0, t1, p0);
                assert forall|j: int|
                    0 <= j < t0.len() && w0.contains(j as NodePtr) implies (#[trigger] t1[j]).next_of()
                    == t0[j].next_of() && t1[j].prev_of() == t0[j].prev_of() by {
                    assert(t0[j].data_of().list == Membership::Waken);
                }
                lemma_wf_frame(&self.waken_tasks, t0, t1);
            }
        }
        let ghost t1 = self.tasks@;
        self.set_list(id, Membership::Detached);
        proof {
            let t2 = self.tasks@;
            let w2 = self.waken_tasks@;
            let p2 = self.pending_tasks@;
            let l0 = t0[id as int].data_of().list;
            if l0 == Membership::Waken {
                assert(w0.contains(id));
                assert(w0[w0.index_of(id)] == id);
                assert(p2 == p0);
            } else {
                assert(p0.contains(id));
                assert(p0[p0.index_of(id)] == id);
                assert(w2 == w0);
            }
            assert forall|i: int| 0 <= i < t2.len() implies {
                &&& ((#[trigger] t2[i]).data_of().list == Membership::Waken <==> w2.contains(
                    i as NodePtr,
                ))
                &&& (t2[i].data_of().list == Membership::Pending <==> p2.contains(i as NodePtr))
                &&& (t2[i].data_of().list == Membership::Detached ==> t2[i].is_detached())
            } by {
                assert(i as NodePtr as int == i);
                if l0 == Membership::Waken {
                    lemma_remove_contains(w0, w0.index_of(id), i as NodePtr);
                } else {
                    lemma_remove_contains(p0, p0.index_of(id), i as NodePtr);
                }
                if i != id {
                    assert(t2[i] == t1[i]);
                    assert(t1[i].data_of() == t0[i].data_of());
                    if t0[i].data_of().list == Membership::Detached {
                        assert(!w0.contains(i as NodePtr));
                        assert(!p0.contains(i as NodePtr));
                        assert(t1[i] == t0[i]);
                    }
                }
            }
        }
    }
}


impl RunLoop {
    /// Stops a loop wherever it is, as when what it ran gave up part way:
    /// the status becomes `Quit` and the loop idle.
    pub fn reset(&mut self)
        requires
            old(self).wf(),
        ensures
            final(self).wf(),
            final(self)@ == finish_state(old(self)@),
    {
        self.finish(false);
    }
}

/// A loop started with `run` (not ticking) stops only on a message to quit:
/// every other event leaves it running.
pub proof fn lemma_run_ends_on_quit(rl: RunLoop, ev: Event, t: LoopState, a: Action)
    requires
        rl.wf(),
        !rl@.ticking,
        rl@.status != Status::Quit,
        expects(rl@, ev),
        stepped(rl@, ev, t, a),
    ensures
        (a is Done) <==> ev == Event::Message(Msg::Quit),
        (a is Done) ==> a == Action::Done(false) && t.status == Status::Quit,
        !(a is Done) ==> t.status == rl@.status && !t.ticking,
{
}

/// What the view of a consistent loop holds: one ticket and one membership
/// per task, a task is in the list its membership names, once, and the timed
/// actions are in heap order, the first one due earliest.
pub proof fn lemma_view_facts(rl: RunLoop)
    requires
        rl.wf(),
    ensures
        rl@.tickets.len() == rl@.lists.len(),
        rl@.waken.no_duplicates(),
        rl@.pending.no_duplicates(),
        forall|i: int|
            0 <= i < rl@.lists.len() ==> (#[trigger] rl@.lists[i] == Membership::Waken
                <==> rl@.waken.contains(i as NodePtr)) && (rl@.lists[i] == Membership::Pending
                <==> rl@.pending.contains(i as NodePtr)),
        forall|j: NodePtr| #[trigger] rl@.waken.contains(j) ==> j < rl@.lists.len(),
        forall|j: NodePtr| #[trigger] rl@.pending.contains(j) ==> j < rl@.lists.len(),
        rl@.phase matches Phase::Polling(id) ==> id < rl@.lists.len() && rl@.lists[id as int]
            == Membership::Detached,
        heap_ordered(rl@.deadlines),
        forall|i: int|
            0 <= i < rl@.deadlines.len() ==> rl@.deadlines[0].key_of() <= #[trigger] rl@.deadlines[i].key_of(),
{
    assert forall|i: int| 0 <= i < rl@.deadlines.len() implies rl@.deadlines[0].key_of()
        <= #[trigger] rl@.deadlines[i].key_of() by {
        lemma_root_is_min(rl@.deadlines, i);
    }
    lemma_wf_facts(&rl.waken_tasks, rl.tasks@);
    lemma_wf_facts(&rl.pending_tasks, rl.tasks@);
    assert forall|i: int| 0 <= i < rl@.lists.len() implies (#[trigger] rl@.lists[i]
        == Membership::Waken <==> rl@.waken.contains(i as NodePtr)) && (rl@.lists[i]
        == Membership::Pending <==> rl@.pending.contains(i as NodePtr)) by {
        assert(rl@.lists[i] == rl.tasks@[i].data_of().list);
    }
}

/// The earliest timed action runs first: when a step asks to run a timed
/// action, it is the first one, and none is due before it.
pub proof fn lemma_fires_earliest(rl: RunLoop, ev: Event, t: LoopState, a: Action)
    requires
        rl.wf(),
        expects(rl@, ev),
        stepped(rl@, ev, t, a),
        a is Fire,
    ensures
        t.deadlines.len() > 0,
        a == (Action::Fire { action: t.deadlines[0].value_of(), key: t.deadlines[0].key_of() }),
        t.deadlines[0].key_of() <= t.now,
        forall|i: int|
            0 <= i < t.deadlines.len() ==> t.deadlines[0].key_of() <= #[trigger] t.deadlines[i].key_of(),
{
    assert(heap_ordered(rl@.deadlines));
    assert(heap_ordered(t.deadlines));
    assert forall|i: int| 0 <= i < t.deadlines.len() implies t.deadlines[0].key_of()
        <= #[trigger] t.deadlines[i].key_of() by {
        lemma_root_is_min(t.deadlines, i);
    }
}

/// Once the due timed actions have run, every timed action left is due after
/// the time the loop read, and the loop's deadline is the earliest of them,
/// or none when there is none.
pub proof fn lemma_timed_actions_later(rl: RunLoop, ev: Event, t: LoopState, a: Action)
    requires
        rl.wf(),
        expects(rl@, ev),
        stepped(rl@, ev, t, a),
        ev is Clock || ev is Fired,
        !(a is Fire),
    ensures
        forall|i: int| 0 <= i < t.deadlines.len() ==> t.now < #[trigger] t.deadlines[i].key_of(),
        t.deadline == (if t.deadlines.len() > 0 {
            Some(t.deadlines[0].key_of())
        } else {
            None
        }),
        forall|i: int|
            0 <= i < t.deadlines.len() ==> t.deadlines[0].key_of() <= #[trigger] t.deadlines[i].key_of(),
{
    assert(heap_ordered(rl@.deadlines));
    assert(heap_ordered(t.deadlines));
    assert forall|i: int| 0 <= i < t.deadlines.len() implies t.deadlines[0].key_of()
        <= #[trigger] t.deadlines[i].key_of() by {
        lemma_root_is_min(t.deadlines, i);
    }
}

/// How the status moves: a step keeps it, except the step that says `Done`,
/// which leaves it `Quit`; asking to quit moves `Running` to `Quiting` and
/// keeps any other status; a wake-up keeps it; and stopping leaves it `Quit`.
/// With `begin`, which takes `Quit` to `Running`, no other move exists.
pub proof fn lemma_status_moves(s: LoopState, ev: Event, t: LoopState, a: Action, task: NodePtr, ticket: usize)
    requires
        expects(s, ev),
        stepped(s, ev, t, a),
    ensures
        t.status == s.status || (t.status == Status::Quit && a is Done),
        (a is Done) ==> t.status == Status::Quit,
        quit_posted(s).status == s.status || (s.status == Status::Running && quit_posted(s).status
            == Status::Quiting),
        woken(s, task, ticket).status == s.status,
        finish_state(s).status == Status::Quit,
{
}

/// A wake-up takes effect only with the task's current ticket and only on a
/// task that waits: with any other ticket, or on a task that is running or
/// already to run, the loop stays exactly as it was. When it takes effect,
/// the task leaves the waiting tasks for the end of the tasks to run and its
/// ticket moves on, so the same waker acts at most once.
pub proof fn lemma_wake_only_current(s: LoopState, task: NodePtr, ticket: usize)
    requires
        task < s.tickets.len(),
        task < s.lists.len(),
        s.pending.no_duplicates(),
    ensures
        s.tickets[task as int] != ticket ==> woken(s, task, ticket) == s,
        s.lists[task as int] != Membership::Pending ==> woken(s, task, ticket) == s,
        s.lists[task as int] == Membership::Pending && s.pending.contains(task) && s.tickets[task as int]
            == ticket ==> {
            let w = woken(s, task, ticket);
            &&& w.lists[task as int] == Membership::Waken
            &&& w.waken.len() == s.waken.len() + 1
            &&& w.waken.last() == task
            &&& w.waken.drop_last() == s.waken
            &&& !w.pending.contains(task)
            &&& w.pending.len() + 1 == s.pending.len()
            &&& w.tickets[task as int] != ticket
            &&& w.deadlines == s.deadlines
            &&& w.status == s.status
        },
        woken(woken(s, task, ticket), task, ticket) == woken(s, task, ticket),
{
    let w = woken(s, task, ticket);
    if s.lists[task as int] == Membership::Pending && s.tickets[task as int] == ticket {
        assert(w.lists[task as int] == Membership::Waken);
        assert(w.waken.drop_last() =~= s.waken);
        if s.pending.contains(task) {
            let i = s.pending.index_of(task);
            assert(s.pending[i] == task);
            assert forall|j: int| 0 <= j < w.pending.len() implies w.pending[j] != task by {
                if j < i {
                    assert(w.pending[j] == s.pending[j]);
                } else {
                    assert(w.pending[j] == s.pending[j + 1]);
                }
            }
        }
    }
}

/// Timed actions leave the loop only by running: a step that does not report
/// a fired action keeps them as they are, and so does stopping, by a step or
/// by `reset`, which also keeps the tasks, their lists and their tickets.
pub proof fn lemma_stop_keeps_work(s: LoopState, ev: Event, t: LoopState, a: Action)
    requires
        expects(s, ev),
        stepped(s, ev, t, a),
    ensures
        !(ev is Fired) ==> t.deadlines == s.deadlines,
        (a is Done) ==> t.deadlines == s.deadlines && t.waken == s.waken && t.pending == s.pending
            && t.tickets == s.tickets && t.lists == s.lists && t.ticking == s.ticking,
        finish_state(s).deadlines == s.deadlines,
        finish_state(s).waken == s.waken,
        finish_state(s).pending == s.pending,
        finish_state(s).tickets == s.tickets,
        finish_state(s).lists == s.lists,
        finish_state(s).now == s.now,
        finish_state(s).deadline == s.deadline,
        finish_state(s).status == Status::Quit,
{
}

/// Asking to quit changes nothing but the status: the loop goes on where it
/// was, with the same timed actions and tasks, and a loop that runs until a
/// quit message still runs until it hears one.
pub proof fn lemma_post_quit_only_status(rl: RunLoop, ev: Event, t: LoopState, a: Action)
    requires
        rl.wf(),
    ensures
        quit_posted(rl@).phase == rl@.phase,
        quit_posted(rl@).ticking == rl@.ticking,
        quit_posted(rl@).now == rl@.now,
        quit_posted(rl@).deadline == rl@.deadline,
        quit_posted(rl@).processed == rl@.processed,
        quit_posted(rl@).deadlines == rl@.deadlines,
        quit_posted(rl@).waken == rl@.waken,
        quit_posted(rl@).pending == rl@.pending,
        quit_posted(rl@).tickets == rl@.tickets,
        quit_posted(rl@).lists == rl@.lists,
        !rl@.ticking && rl@.status != Status::Quit && expects(quit_posted(rl@), ev) && stepped(
            quit_posted(rl@),
            ev,
            t,
            a,
        ) ==> ((a is Done) <==> ev == Event::Message(Msg::Quit)),
{
}

} // verus!
