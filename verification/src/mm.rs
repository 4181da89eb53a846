//! Virtual memory: permissions, physical frames, address spaces and the
//! bridge through which the kernel reaches user memory.

pub mod bridge;
pub mod frame;
pub mod permission;
pub mod space;
