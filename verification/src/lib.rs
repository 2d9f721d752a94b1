//! Compact encoding and incremental updates for a trading-card catalog.
//!
//! A catalog is a set of card records, each under a unique reference key,
//! together with three lookup tables. The crate makes catalogs of harvested
//! cards, encodes a catalog into a database that is small and quick to read,
//! packs that database with interchangeable codecs, and computes, stores and
//! replays the difference between two catalogs. Every function carries a
//! contract that Verus proves; the few places where the crate relies on
//! code from outside are marked as such, each with what is taken on trust.
//! The crate reads no clock: where a time is recorded, the caller hands it
//! over, in milliseconds since the Unix epoch.
//!
//! The parts, leaves first:
//!
//! - `keys`: the order of reference keys and the search in sorted vectors;
//! - `string_pool`, `identity`, `packing`: handles for strings, numeric
//!   identities for keys, one word for three power values;
//! - `lookup`, `catalog`, `normalize`: lookup tables, card tables, and the
//!   making of a catalog;
//! - `ordering`, `encoder`, `framing`, `database`: encoded records in the
//!   order of their identities, and the buffer that holds them;
//! - `compression`, `formats`: codecs, and the artifacts published for a
//!   catalog;
//! - `delta`, `delta_manager`, `delta_update`, `wire`: deltas between
//!   catalogs, their replay, the version registry, and the byte form of a
//!   delta package;
//! - `hex`, `error`: small things that the others share.

pub mod catalog;
pub mod compression;
pub mod database;
pub mod delta;
pub mod delta_manager;
pub mod delta_update;
pub mod encoder;
pub mod error;
pub mod formats;
pub mod framing;
pub mod hex;
pub mod identity;
pub mod keys;
pub mod lookup;
pub mod normalize;
pub mod ordering;
pub mod packing;
pub mod string_pool;
pub mod wire;
