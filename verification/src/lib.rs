//! Logos, theme colours and canonical names for tournament result pages.
//!
//! A result file is named after the year, the tournament and the division of
//! a tournament. The library reads such names, builds the catalog of the
//! logos that a logo directory holds, and chooses for each result file the
//! most specific logo that is for it, with a theme colour against which white
//! text can be read. It also settles when a result file was added, lists the
//! events and the schools of all tournaments, and says where each page goes.
//!
//! The library reads no file and asks no clock: its callers hand it file
//! names, pixels, the text of a version-control log and the measurements of
//! contrast, and do what it answers. Every function is verified against the
//! contract in its header. The calls into other crates stand in four private
//! functions whose contracts are taken on trust: `triangle_resize` and
//! `css_darken` in `theme`, `parse_stamp` in `history`, and `csv_record` in
//! `canonical`.

pub mod canonical;
pub mod catalog;
pub mod history;
pub mod names;
pub mod order;
pub mod pages;
pub mod record;
pub mod resolve;
pub mod text;
pub mod theme;
