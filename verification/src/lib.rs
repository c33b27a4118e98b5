//! Verified bookkeeping core of a multi-threaded path tracer.
//!
//! The numerical kernel of the renderer works on floating-point vectors and
//! lives with the program around this library. What is held here is
//! everything discrete that the renderer relies on: how image rows are
//! divided among workers, how a worker walks its rows, how finished rows are
//! put back into a row-major image whatever order they arrive in, which hit
//! of a ray is the nearest, when a light path ends, and the exact text of
//! the image file and of the progress display.

pub mod assembly;
pub mod coordinator;
pub mod hittable_list;
pub mod image;
pub mod key;
pub mod path;
pub mod progress;
pub mod rows;
pub mod schedule;
pub mod text;
pub mod worker;
