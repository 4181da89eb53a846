//! Tasks, their saved contexts and the kernel state that schedules them.

pub mod context;
pub mod kernel;
pub mod model;
pub mod tcb;
pub mod trap;

pub use self::context::TaskContext;
pub use self::kernel::Kernel;
pub use self::tcb::TaskStatus;
pub use self::trap::TrapContext;
