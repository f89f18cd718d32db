//! Conversion of key-mode rhythm-game charts from a beat-based JSON chart
//! format to a millisecond-based, section-based text chart format.
//!
//! Beats are exact fractions, tempo is held in thousandths of a BPM and
//! scroll multipliers in millionths, so every time the conversion computes is
//! an exact floor of a rational number.
//!
//! - [`beat`]: rational beats and exact floor arithmetic
//! - [`source`]: the source chart model
//! - [`timeline`]: tempo breakpoints and beat-to-time resolution
//! - [`timing`]: tempo and scroll timing points, and their merge
//! - [`notes`]: hit objects and the column-to-pixel mapping
//! - [`text`]: file-name sanitization, entry names, the start of the JSON text
//! - [`convert`]: the per-chart transcoder
//! - [`serialize`]: the target chart text
//! - [`lexical`], [`osu_parse`]: reading the target chart text back
//! - [`summary`]: the summary record of a chart
pub mod beat;
pub mod convert;
pub mod lexical;
pub mod notes;
pub mod osu_parse;
pub mod serialize;
pub mod source;
pub mod summary;
pub mod text;
pub mod timeline;
pub mod timing;
