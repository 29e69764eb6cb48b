//! Verified kernels for a suite of throughput microbenchmarks.
//!
//! The centrepiece is the stencil engine in [`stencil`]: a fixed-step 2D
//! finite-difference solver that partitions its grid into contiguous row
//! ranges, applies a 5-point averaging kernel to each range, and — when run
//! across a worker pool — synchronizes the rounds with the reusable
//! [`barrier::SpinBarrier`]. The other modules hold the computational cores
//! of the sibling benchmarks: the walk bookkeeping and FNV-style hashing of
//! [`fswalk`], the open-addressing table of [`table`], the byte scanner of
//! [`scan`], the pattern counter of [`matcher`], the radix sort of [`sort`],
//! and the key generator of [`lcg`]. Everything that does I/O — reading
//! files, statting paths, spawning threads, printing — stays with the
//! binaries that drive these kernels.

pub mod barrier;
pub mod fswalk;
pub mod lcg;
pub mod matcher;
pub mod scan;
pub mod sort;
pub mod stencil;
pub mod table;
