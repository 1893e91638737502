//! A sectioned binary container format with a fixed-width table store and a
//! read-only tree view of self-describing values.
//!
//! Layout of a stream, all multi-byte fields little-endian:
//! - a 40-byte main header: signature `BPX`, type, checksum, file size,
//!   section count, version, 16 bytes of type extension;
//! - a directory of 22-byte entries: payload offset, stored size,
//!   uncompressed size, checksum, type, flags;
//! - the section payloads, one after another, in directory order.
//!
//! The main header checksum is the sum, modulo 2^32, of the header bytes
//! other than the signature and the checksum field, and of the directory.
//! A section's weak checksum is the sum of its uncompressed bytes modulo
//! 2^32; its CRC-32 checksum is the standard CRC-32 of those bytes.
//!
//! Handles are never handed out twice by one container, so a removed
//! section's handle stays invalid. A table counts every row slot, free rows
//! included, and ignores a partial trailing row. Sections are held in memory
//! whatever the memory threshold says; the threshold is kept for hosts that
//! stage large sections elsewhere.
pub mod bytes;
pub mod codec;
pub mod container;
pub mod error;
pub mod header;
pub mod options;
pub mod row;
pub mod section;
pub mod table;
pub mod tree;
pub mod value;
