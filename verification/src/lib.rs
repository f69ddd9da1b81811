//! A single logical, seekable byte stream over one or more finite byte sources.
//!
//! The crate has three layers, leaves first:
//!
//! - [`vec_deq::VecDeque`]: a growable circular byte buffer with amortized O(1)
//!   push/pop at both ends, exposed as up to two contiguous slices. It is the
//!   cache substrate of the reader.
//! - [`multifile::MultiFile`]: presents an ordered list of [`multifile::File`]
//!   sources as one contiguous address space, crossing source boundaries on
//!   reads and seeks.
//! - [`reader::ExactReader`]: the buffered facade. It keeps a sliding window of
//!   the stream in the ring buffer and, on every seek and read, performs only
//!   the I/O that the requested window actually needs.

pub mod multifile;
pub mod reader;
pub mod utils;
pub mod vec_deq;

pub use multifile::File;
pub use multifile::MultiFile;
pub use reader::ExactReader;
pub use utils::SeekError;
pub use utils::SeekFrom;
pub use utils::calculate_seek;
