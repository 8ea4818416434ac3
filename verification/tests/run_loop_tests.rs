use std::collections::VecDeque;

use runloop::task::{yield_now, Exec, Membership, TaskResult, Yield};
use runloop::{post_quit, spawn_task, status, Action, Event, Msg, Phase, RunLoop, Status};

#[test]
fn it_works() {
    assert_eq!(2 + 2, 4);
}

/// What was posted to the loop's queue.
enum Posted {
    Wake(usize, usize),
    Quit,
}

/// Answers `TryRecv` and `Wait` from the queue, running what a message asks.
fn deliver(rl: &mut RunLoop, inbox: &mut VecDeque<Posted>) -> Event {
    match inbox.pop_front() {
        None => Event::NoMessage,
        Some(Posted::Quit) => Event::Message(Msg::Quit),
        Some(Posted::Wake(task, ticket)) => {
            rl.wake_task(task, ticket);
            Event::Message(Msg::Func)
        }
    }
}

/// The two tasks of the `task` test, written out as their futures run.
struct Scenario {
    num: i32,
    outer_step: u8,
    inner_step: u8,
    outer_yield: Yield,
    inner_yield: Yield,
    inner_result: TaskResult<bool>,
    notifier: Option<(usize, usize)>,
    inbox: VecDeque<Posted>,
    outer_done: bool,
}

/// The outer task: it spawns the inner one, yields, awaits the inner one,
/// checks `num` and quits.
fn poll_outer(rl: &mut RunLoop, sc: &mut Scenario, ticket: usize) -> Exec {
    if sc.outer_step == 0 {
        let inner = spawn_task(rl);
        assert_eq!(inner.id(), 1);
        sc.outer_step = 1;
        if !sc.outer_yield.poll() {
            sc.inbox.push_back(Posted::Wake(0, ticket));
            return Exec::Pending;
        }
    }
    if sc.outer_step == 1 {
        assert!(sc.outer_yield.poll());
        sc.outer_step = 2;
    }
    // Awaiting a result that was already looked at panics.
    assert!(!matches!(sc.inner_result, TaskResult::Polled));
    match sc.inner_result.poll() {
        Some(_) => {
            assert_eq!(sc.num, 0);
            if post_quit(rl) {
                sc.inbox.push_back(Posted::Quit);
            }
            sc.outer_done = true;
            Exec::Ready
        }
        None => {
            sc.notifier = Some((0, ticket));
            Exec::Pending
        }
    }
}

/// The inner task: when `num` is 0 it sets it to 1, yields, and sets it back.
fn poll_inner(rl: &mut RunLoop, sc: &mut Scenario, ticket: usize) -> Exec {
    if sc.inner_step == 0 {
        if sc.num != 0 {
            sc.inner_result = TaskResult::Ready(false);
        } else {
            sc.num = 1;
            sc.inner_step = 1;
            if !sc.inner_yield.poll() {
                sc.inbox.push_back(Posted::Wake(1, ticket));
                return Exec::Pending;
            }
        }
    }
    if sc.inner_step == 1 {
        assert!(sc.inner_yield.poll());
        sc.num = 0;
        sc.inner_result = TaskResult::Ready(true);
    }
    if let Some((task, t)) = sc.notifier.take() {
        rl.wake_task(task, t);
    }
    Exec::Ready
}

#[test]
fn task() {
    let mut rl = RunLoop::new();
    let mut sc = Scenario {
        num: 0,
        outer_step: 0,
        inner_step: 0,
        outer_yield: yield_now(),
        inner_yield: yield_now(),
        inner_result: TaskResult::Pending,
        notifier: None,
        inbox: VecDeque::new(),
        outer_done: false,
    };
    let outer = spawn_task(&mut rl);
    assert_eq!(outer.id(), 0);
    let mut polls = Vec::new();
    let mut a = rl.run();
    loop {
        let ev = match a {
            Action::TryRecv => deliver(&mut rl, &mut sc.inbox),
            Action::ReadClock => Event::Clock(0),
            Action::Poll { task, ticket } => {
                polls.push(task);
                let exec = if task == 0 {
                    poll_outer(&mut rl, &mut sc, ticket)
                } else {
                    poll_inner(&mut rl, &mut sc, ticket)
                };
                Event::Polled(exec)
            }
            Action::Wait(deadline) => {
                assert_eq!(deadline, None);
                let ev = deliver(&mut rl, &mut sc.inbox);
                assert!(ev != Event::NoMessage, "the loop would wait for ever");
                ev
            }
            Action::Fire { .. } => unreachable!(),
            Action::Done(_) => break,
        };
        a = rl.step(ev);
    }
    assert!(sc.outer_done);
    assert_eq!(sc.num, 0);
    assert_eq!(polls, vec![0, 1, 0, 1, 0]);
    assert_eq!(status(&rl), Status::Quit);
}

#[test]
fn tick_without_work_completes() {
    let mut rl = RunLoop::new();
    assert_eq!(rl.tick(), Action::TryRecv);
    assert_eq!(rl.status(), Status::Running);
    assert_eq!(rl.step(Event::NoMessage), Action::ReadClock);
    assert_eq!(rl.step(Event::Clock(10)), Action::TryRecv);
    assert_eq!(rl.phase(), Phase::DrainSecond);
    assert_eq!(rl.step(Event::NoMessage), Action::Done(true));
    assert_eq!(rl.status(), Status::Quit);
    assert_eq!(rl.phase(), Phase::Idle);
}

#[test]
fn tick_stops_on_quit_message() {
    let mut rl = RunLoop::new();
    rl.tick();
    assert_eq!(rl.step(Event::Message(Msg::Func)), Action::TryRecv);
    assert_eq!(rl.step(Event::Message(Msg::Quit)), Action::Done(false));
    assert_eq!(rl.status(), Status::Quit);
}

#[test]
fn tick_second_drain_sees_quit() {
    let mut rl = RunLoop::new();
    rl.tick();
    rl.step(Event::NoMessage);
    assert_eq!(rl.step(Event::Clock(0)), Action::TryRecv);
    assert_eq!(rl.step(Event::Message(Msg::Func)), Action::TryRecv);
    assert_eq!(rl.step(Event::Message(Msg::Quit)), Action::Done(false));
}

#[test]
fn post_quit_only_while_running() {
    let mut rl = RunLoop::new();
    assert!(!post_quit(&mut rl));
    assert_eq!(status(&rl), Status::Quit);
    rl.run();
    assert!(post_quit(&mut rl));
    assert_eq!(status(&rl), Status::Quiting);
    assert!(!post_quit(&mut rl));
    assert_eq!(status(&rl), Status::Quiting);
}

#[test]
fn deadlines_fire_in_order_and_reschedule() {
    let mut rl = RunLoop::new();
    rl.schedule(30, 3);
    rl.schedule(10, 1);
    rl.schedule(20, 2);
    assert_eq!(rl.deadline_count(), 3);
    rl.run();
    rl.step(Event::NoMessage);
    assert_eq!(rl.step(Event::Clock(25)), Action::Fire { action: 1, key: 10 });
    // The first action asks to run again at 40.
    assert_eq!(rl.step(Event::Fired(Some(40))), Action::Fire { action: 2, key: 20 });
    // The second action is done for good.
    assert_eq!(rl.step(Event::Fired(None)), Action::Wait(Some(30)));
    assert_eq!(rl.deadline_count(), 2);
    assert_eq!(rl.step(Event::Timeout), Action::ReadClock);
    assert_eq!(rl.step(Event::Clock(45)), Action::Fire { action: 3, key: 30 });
    assert_eq!(rl.step(Event::Fired(None)), Action::Fire { action: 1, key: 40 });
    assert_eq!(rl.step(Event::Fired(None)), Action::Wait(None));
    assert_eq!(rl.deadline_count(), 0);
    assert_eq!(rl.step(Event::Message(Msg::Quit)), Action::Done(false));
}

#[test]
fn deadline_moved_earlier_fires_first() {
    let mut rl = RunLoop::new();
    rl.schedule(5, 7);
    rl.schedule(50, 8);
    rl.run();
    rl.step(Event::NoMessage);
    assert_eq!(rl.step(Event::Clock(5)), Action::Fire { action: 7, key: 5 });
    // Rescheduled after the other one.
    assert_eq!(rl.step(Event::Fired(Some(60))), Action::Wait(Some(50)));
}

#[test]
fn rescheduled_action_keeps_its_place_among_equal_times() {
    let mut rl = RunLoop::new();
    rl.schedule(1, 1);
    rl.schedule(5, 2);
    rl.schedule(5, 3);
    rl.run();
    rl.step(Event::NoMessage);
    assert_eq!(rl.step(Event::Clock(6)), Action::Fire { action: 1, key: 1 });
    // Asked again at 5, the first action stays first among the actions due at 5.
    assert_eq!(rl.step(Event::Fired(Some(5))), Action::Fire { action: 1, key: 5 });
    assert_eq!(rl.step(Event::Fired(None)), Action::Fire { action: 2, key: 5 });
    assert_eq!(rl.step(Event::Fired(None)), Action::Fire { action: 3, key: 5 });
    assert_eq!(rl.step(Event::Fired(None)), Action::Wait(None));
}

#[test]
fn tasks_run_in_the_order_they_were_woken() {
    let mut rl = RunLoop::new();
    for _ in 0..3 {
        spawn_task(&mut rl);
    }
    rl.run();
    rl.step(Event::NoMessage);
    assert_eq!(rl.step(Event::Clock(0)), Action::Poll { task: 0, ticket: 0 });
    assert_eq!(rl.step(Event::Polled(Exec::Pending)), Action::Poll { task: 1, ticket: 0 });
    assert_eq!(rl.step(Event::Polled(Exec::Pending)), Action::Poll { task: 2, ticket: 0 });
    assert_eq!(rl.step(Event::Polled(Exec::Pending)), Action::ReadClock);
    assert_eq!(rl.step(Event::Clock(0)), Action::Wait(None));
    // Wake them in another order.
    assert!(rl.wake_task(2, 0));
    assert!(rl.wake_task(0, 0));
    assert_eq!(rl.membership(1), Membership::Pending);
    assert_eq!(rl.membership(2), Membership::Waken);
    assert_eq!(rl.step(Event::Message(Msg::Func)), Action::ReadClock);
    assert_eq!(rl.step(Event::Clock(0)), Action::Poll { task: 2, ticket: 1 });
    assert_eq!(rl.step(Event::Polled(Exec::Ready)), Action::Poll { task: 0, ticket: 1 });
    assert_eq!(rl.ticket(2), 2);
    assert_eq!(rl.membership(2), Membership::Detached);
}

#[test]
fn stale_wake_has_no_effect() {
    let mut rl = RunLoop::new();
    spawn_task(&mut rl);
    rl.run();
    rl.step(Event::NoMessage);
    rl.step(Event::Clock(0));
    rl.step(Event::Polled(Exec::Pending));
    assert_eq!(rl.ticket(0), 0);
    assert!(rl.wake_task(0, 0));
    assert_eq!(rl.ticket(0), 1);
    // The same waker again: the ticket has moved on.
    assert!(!rl.wake_task(0, 0));
    assert_eq!(rl.ticket(0), 1);
    assert!(!rl.wake(0, 0));
    assert!(rl.wake(0, 1));
    assert_eq!(rl.ticket(0), 2);
}

#[test]
fn wake_while_running_has_no_effect() {
    let mut rl = RunLoop::new();
    spawn_task(&mut rl);
    rl.run();
    rl.step(Event::NoMessage);
    assert_eq!(rl.step(Event::Clock(0)), Action::Poll { task: 0, ticket: 0 });
    assert_eq!(rl.membership(0), Membership::Detached);
    // The task is not waiting: the wake-up is not taken, the ticket stays.
    assert!(!rl.wake_task(0, 0));
    assert_eq!(rl.ticket(0), 0);
    assert_eq!(rl.step(Event::Polled(Exec::Pending)), Action::ReadClock);
    assert_eq!(rl.membership(0), Membership::Pending);
    // Once it waits, the same waker wakes it.
    assert!(rl.wake_task(0, 0));
    assert_eq!(rl.ticket(0), 1);
    assert_eq!(rl.membership(0), Membership::Waken);
}

#[test]
fn wake_of_a_task_to_run_has_no_effect() {
    let mut rl = RunLoop::new();
    spawn_task(&mut rl);
    assert_eq!(rl.membership(0), Membership::Waken);
    assert!(!rl.wake_task(0, 0));
    assert_eq!(rl.ticket(0), 0);
    assert_eq!(rl.membership(0), Membership::Waken);
}

#[test]
fn reset_stops_the_loop_anywhere() {
    let mut rl = RunLoop::new();
    spawn_task(&mut rl);
    rl.run();
    rl.step(Event::NoMessage);
    rl.step(Event::Clock(0));
    assert_eq!(rl.phase(), Phase::Polling(0));
    rl.reset();
    assert_eq!(rl.status(), Status::Quit);
    assert_eq!(rl.phase(), Phase::Idle);
    assert_eq!(rl.tick(), Action::TryRecv);
}

#[test]
fn run_never_ends_without_quit() {
    let mut rl = RunLoop::new();
    rl.run();
    assert_eq!(rl.step(Event::NoMessage), Action::ReadClock);
    assert_eq!(rl.step(Event::Clock(0)), Action::Wait(None));
    assert_eq!(rl.step(Event::Message(Msg::Func)), Action::ReadClock);
    assert_eq!(rl.step(Event::Clock(1)), Action::Wait(None));
    assert_eq!(rl.status(), Status::Running);
    assert_eq!(rl.step(Event::Message(Msg::Quit)), Action::Done(false));
}

#[test]
fn pending_to_waken_moves_to_the_end() {
    let mut rl = RunLoop::new();
    spawn_task(&mut rl);
    spawn_task(&mut rl);
    rl.run();
    rl.step(Event::NoMessage);
    rl.step(Event::Clock(0));
    rl.step(Event::Polled(Exec::Pending));
    rl.step(Event::Polled(Exec::Pending));
    rl.pending_to_waken(1);
    rl.pending_to_waken(0);
    assert_eq!(rl.membership(0), Membership::Waken);
    assert_eq!(rl.step(Event::Clock(0)), Action::Poll { task: 1, ticket: 0 });
}

#[test]
fn dropping_a_task_takes_it_out() {
    let mut rl = RunLoop::new();
    let t0 = spawn_task(&mut rl);
    let t1 = spawn_task(&mut rl);
    assert!(rl.drop_task(t0.id()));
    assert_eq!(rl.membership(0), Membership::Detached);
    assert!(!rl.drop_task(t0.id()));
    rl.tick();
    rl.step(Event::NoMessage);
    assert_eq!(rl.step(Event::Clock(0)), Action::Poll { task: t1.id(), ticket: 0 });
    assert_eq!(rl.step(Event::Polled(Exec::Pending)), Action::TryRecv);
    assert!(rl.drop_task(t1.id()));
    assert_eq!(rl.membership(1), Membership::Detached);
    assert_eq!(rl.step(Event::NoMessage), Action::Done(true));
}

#[test]
fn release_hands_out_waken_then_pending() {
    let mut rl = RunLoop::new();
    for _ in 0..3 {
        spawn_task(&mut rl);
    }
    rl.tick();
    rl.step(Event::NoMessage);
    rl.step(Event::Clock(0));
    rl.step(Event::Polled(Exec::Pending));
    rl.step(Event::Polled(Exec::Ready));
    rl.step(Event::Polled(Exec::Pending));
    rl.step(Event::NoMessage);
    spawn_task(&mut rl);
    assert_eq!(rl.task_count(), 4);
    assert_eq!(rl.release_tasks(), vec![3, 0, 2]);
}

#[test]
fn expects_follows_the_phase() {
    let mut rl = RunLoop::new();
    assert!(!rl.expects(Event::NoMessage));
    rl.run();
    assert!(rl.expects(Event::NoMessage));
    assert!(!rl.expects(Event::Clock(0)));
    rl.step(Event::NoMessage);
    assert!(rl.expects(Event::Clock(0)));
    assert!(!rl.expects(Event::Timeout));
    rl.step(Event::Clock(0));
    assert_eq!(rl.phase(), Phase::Waiting);
    assert!(rl.expects(Event::Timeout));
    assert!(rl.expects(Event::Message(Msg::Quit)));
    assert!(!rl.expects(Event::NoMessage));
}

#[test]
fn task_result_is_handed_out_once() {
    let mut r: TaskResult<u32> = TaskResult::Ready(9);
    assert_eq!(r.poll(), Some(9));
    assert!(matches!(r, TaskResult::Polled));
    let mut p: TaskResult<u32> = TaskResult::Pending;
    assert_eq!(p.poll(), None);
    assert!(matches!(p, TaskResult::Polled));
}

#[test]
fn yield_gives_way_once() {
    let mut y = yield_now();
    assert!(!y.poll());
    assert!(y.poll());
    assert!(y.poll());
}

#[test]
fn exec_is_pending() {
    assert!(Exec::Pending.is_pending());
    assert!(!Exec::Ready.is_pending());
}
