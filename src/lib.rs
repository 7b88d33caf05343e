//! Sharing one pixel display among several cooperatively scheduled apps.
//!
//! Each app owns a disjoint rectangle of the screen whose pixels are kept
//! run-length encoded. A flush reassembles full-width strips of the screen
//! from the compressed partitions, one strip at a time.
pub mod geometry;
pub mod runs;
pub mod compressed_buffer;
pub mod flush_lock;
pub mod partition;
mod registry;
pub mod toolkit;

pub use geometry::{Point, Rectangle, Size};
pub use runs::{BufferWrite, decode, total};
pub use compressed_buffer::{CompressedBuffer, DecompressingIter};
pub use flush_lock::{FlushLock, FlushPhase, LockStep, LockSystem, FLUSH_LOCK_BIT, MAX_WRITERS};
pub use partition::{CompressedDisplayPartition, NewPartitionError};
pub use registry::MAX_APPS_PER_SCREEN;
pub use toolkit::{FlushResult, FlushStep, SharedCompressedDisplay};
