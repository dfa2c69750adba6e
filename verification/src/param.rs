use vstd::prelude::*;

verus! {

/// Number of harts.
pub const NCPU: usize = 1;

/// Size of the boot stack of each hart.
pub const STACK_SIZE: usize = 4096;

/// Maximum number of processes.
pub const NPROC: usize = 8;

/// Load address of the first application of the batch.
pub const APP_BASE_ADDRESS: usize = 0x80400000;

/// Address-space budget of each application image.
pub const APP_SIZE_LIMIT: usize = 0x20000;

/// Size of each application's user stack.
pub const USER_STACK_SIZE: usize = 8192;

/// Size of each application's kernel stack.
pub const KERNEL_STACK_SIZE: usize = 8192;

} // verus!
