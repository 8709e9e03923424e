//! A bzip2 decompressor that is proved to follow the format.
//!
//! The modules follow the decoding of a stream from the bits up:
//!
//! - [`bits`] and [`bitreader`] give the bits of a byte string;
//! - [`codes`] and [`huffman`], [`mtf`], [`bwt`] and [`rle`] undo one stage of the
//!   compression each;
//! - [`grammar`] says what the bits of a block mean, and [`block`] decodes one;
//! - [`stream`] decodes a stream block after block, [`block_scan`] and
//!   [`parallel`] by finding all its blocks first, and [`chunk`] in segments that
//!   can be handed to workers;
//! - [`collector`] puts the results of workers back in order, and [`host`] holds
//!   what the program decides from what it learns of the machine.
//!
//! Ten modules hold laws alone: [`encoding`], with [`writing`] and [`rotations`],
//! that decoding undoes compression; [`refusals`], what is refused and for which
//! reason; [`splitting`], where a chunk is cut; [`parts`], [`carry`] and [`joined`],
//! with [`locality`], that decoding in parts gives what decoding in one go gives;
//! and [`files`], that each way of decoding gives back what was written.
use vstd::prelude::*;

pub mod bitreader;
pub mod bits;
pub mod block;
pub mod block_scan;
pub mod bwt;
pub mod carry;
pub mod chunk;
pub mod codes;
pub mod collector;
pub mod encoding;
pub mod files;
pub mod grammar;
pub mod host;
pub mod huffman;
pub mod joined;
pub mod locality;
pub mod mtf;
pub mod parallel;
pub mod parts;
pub mod refusals;
pub mod rle;
pub mod rotations;
pub mod splitting;
pub mod stream;
pub mod writing;

verus! {

/// The 48 bits in front of every block: the first digits of pi.
pub const BLOCK_MAGIC: u64 = 0x314159265359;

/// The 48 bits at the end of every stream: the first digits of the square root
/// of pi.
pub const FINAL_MAGIC: u64 = 0x177245385090;

} // verus!
