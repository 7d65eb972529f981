//! Data-parallel kernels over flat numeric buffers.
//!
//! A buffer is cut into contiguous, disjoint regions, one per task, and a
//! kernel (elementwise addition, or a block of rows of a matrix product)
//! fills each output region from the matching input regions.
//!
//! - `regions` says where the regions lie and proves that they tile the
//!   buffer.
//! - `partition` cuts vectors and row-major matrices into those regions,
//!   shared or exclusive.
//! - `kernel` holds the computations on one region.
//! - `dispatch` composes the two: it cuts, runs the kernel on every region
//!   and reports the outcome.
//! - `offset` does the same work by offsets into the whole buffers instead
//!   of by regions, with the same outcome.
//! - `numeric` is the arithmetic that the kernels need of a value type.
//!
//! Starting and joining threads is left to the caller: each region can be
//! handed to a thread of its own, because no two regions share an element.

pub mod dispatch;
pub mod error;
pub mod kernel;
pub mod numeric;
pub mod offset;
pub mod partition;
pub mod regions;
