//! A slot-based storage library: a uniform protocol for allocating, updating,
//! reading and releasing identifier-addressed records.
//!
//! The persistent realization keeps fixed-size blocks in one byte image,
//! tracks live/free status in two bit-vector images (reserved ids, used ids),
//! and recycles released identifiers through an append-only stack image.
//! Every image is a plain vector of bytes laid out exactly as the
//! corresponding file; persistence itself (reading the images from disk and
//! writing them back) is left to the embedding program.

pub mod bitops;
pub mod bitsetfile;
pub mod blockfilecontainer;
pub mod container;
pub mod converter;
pub mod error;
pub mod stackfile;
pub mod veccontainer;
