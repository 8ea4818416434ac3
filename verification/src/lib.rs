pub mod binary_heap;
pub mod linked_list;
pub mod run_loop;
pub mod spin_lock;

pub use run_loop::task;
pub use run_loop::{post_quit, spawn_task, status, Action, Event, Msg, Phase, RunLoop, Status};
