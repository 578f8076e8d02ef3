//! Estimates how many key presses a change of keyboard layout would save on
//! a body of text.
//!
//! A character that needs a modifier on a layout costs two key presses
//! there, any other character one. The characters of the files below some
//! paths are counted, and the count is priced on the layout in use and on the
//! new one.
//!
//! - [`counts`]: the character frequency map and the counting of a text.
//! - [`cost`]: what a count costs on a layout, and the comparison of the two.
//! - [`filter`]: the file name filter, a regular expression.
//! - [`walk`]: which paths are left to visit and what to do with each, and
//!   a whole walk over a file tree held in memory.
//! - [`logging`]: which messages the program lets through.
//!
//! Nothing here touches the file system or prints: the caller reads and
//! reports.

pub mod cost;
pub mod counts;
pub mod filter;
pub mod logging;
pub mod walk;
