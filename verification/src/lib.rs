//! A verified library for the VHDX virtual-disk format, VHD's modern successor, used by
//! Hyper-V and WSL2.
//!
//! The library holds the rules of the format and decides; it performs no I/O. Whoever holds
//! the device that an image lies on carries out what the library plans:
//!
//! - [`open`]: opening an image, replaying the log of a dirty one on the way;
//! - [`reader`]: an opened image, and reads of the virtual disk;
//! - [`write`]: writes to the virtual disk, with their allocation and journalling;
//! - [`device`]: the operations that plans are made of, and what they mean.
//!
//! The structures of the format have a module each: [`header`], [`region_table`],
//! [`metadata`], [`bat`] and [`log`]; [`layout`] holds them against each other.
//!
//! What an opened image and its device hold together, and what reads and writes of the virtual
//! disk make of it, is stated in [`volume`]; what closing and reopening an image, or a crash,
//! leaves of it, in [`durability`].
pub mod bat;
pub mod bytes;
pub mod checksum;
pub mod device;
pub mod durability;
pub mod endian;
pub mod error;
pub mod header;
pub mod layout;
pub mod log;
pub mod metadata;
pub mod open;
pub mod reader;
pub mod region_table;
pub mod volume;
pub mod write;

pub use error::{Error, Result};
pub use reader::VhdxReader;
