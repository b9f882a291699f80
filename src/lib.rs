//! Helpers for UEFI firmware: decompression of the LZ77 + canonical
//! Huffman format of compressed firmware sections (UEFI and Tiano
//! variants), GUID text, performance-counter instants, and the plain data
//! types used with the boot and runtime services tables.
pub mod bit_reader;
pub mod boot_services;
pub mod guid;
pub mod huffman;
pub mod perf_timer;
pub mod runtime_services;
pub mod uefi_decompress;

pub use perf_timer::{ArchFunctionality, Instant};
pub use uefi_decompress::{decompress_into_with_algo, DecompressError, DecompressionAlgorithm};
