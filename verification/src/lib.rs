//! Parser and editor for Master of Orion 3 save files (`.gam`).
//!
//! Saves are big-endian binary blobs: UTF-16BE strings, an 8-byte
//! fixed-point number (6-byte signed integer part, 2-byte 1/65536
//! fraction), and section markers stored as reversed ASCII (`VSYXALAG`
//! is "GALAXYSV").
//!
//! - [`galaxy`]: systems, planets, and population regions.
//! - [`species`]: the species behind a region's `race1` byte.
//! - [`empire`]: the empire table, treasuries, and player ownership.
//! - [`replace`]: plan a species replacement, then patch it in place.
//! - [`edit`]: field-level region edits.
//! - [`header`]: file-header fields (the turn counter).
//! - [`verify`]: the self-check battery.

pub mod cursor;
pub mod edit;
pub mod empire;
pub mod error;
pub mod galaxy;
pub mod header;
pub mod options;
pub mod order;
pub mod owned;
pub mod replace;
pub mod report;
pub mod search;
pub mod session;
pub mod special;
pub mod species;
pub mod text;
pub mod verify;

pub use error::Error;
pub use species::Species;
