//! Least, mean and greatest temperature of every weather station in a large
//! file of `name;value` lines.
//!
//! A temperature has one fractional digit and is held as a whole number of
//! tenths of a degree, so that sums are exact and the result does not depend
//! on the order in which readings are added up. The statistics of the
//! stations are kept in a hash table; tables that were filled from different
//! parts of the input are merged into one, and the merged table is the same
//! whatever the parts were.
//!
//! The modules, from the leaves up:
//!
//! - [`temperature`]: the temperature type, its two parsers and its
//!   arithmetic;
//! - [`text`]: finding a byte, cutting a buffer into lines;
//! - [`row`]: one line of input as a record;
//! - [`stats`]: the running statistics of one station and their final form;
//! - [`model`]: what aggregation means, and the laws of merging;
//! - [`table`]: the hash table, whose contracts are taken on trust;
//! - [`results`]: the statistics of all stations, ingesting and merging;
//! - [`reduce`]: from a buffer to the statistics of all stations;
//! - [`order`]: the order of names, and sorting by it;
//! - [`summary`]: the final statistics of all stations in the order of their
//!   names;
//! - [`format`]: how temperatures and the summary are written out.

pub mod temperature;
pub mod text;
pub mod row;
pub mod stats;
pub mod model;
pub mod table;
pub mod results;
pub mod reduce;
pub mod order;
pub mod summary;
pub mod format;
