//! Finds the recordings on a TiVo drive and lists their titles and metadata.
//!
//! Nothing here reads a drive. The library parses what was read, decides what to
//! read next and writes what is to be shown:
//!
//! - [`object`] parses the database objects of the media file system, and
//!   [`layout`] states what parsing gives back of what was written;
//! - [`recordings`] links Recording, Program and Station objects and makes the
//!   rows of a listing;
//! - [`scan`] finds recordings by looking at every inode, [`now_showing`] through
//!   the index directories, and [`index`] states what these lead to;
//! - [`titles`] finds titles in the raw bytes of a partition, by the
//!   [`index_entries`] among them, and [`partitions`] says where to look;
//! - [`dumpobj`] shows an object byte by byte and attribute by attribute;
//! - [`calendar`], [`order`] and [`text`] hold what these share: dates, sorting,
//!   numerals and padding.

pub mod calendar;
pub mod dumpobj;
pub mod index;
pub mod index_entries;
pub mod layout;
pub mod now_showing;
pub mod obj_type;
pub mod object;
pub mod order;
pub mod partitions;
pub mod recordings;
pub mod scan;
pub mod text;
pub mod titles;
