//! The logic of a disk usage analyzer for btrfs that works by sampling.
//!
//! Addresses are drawn evenly from the block groups of a file system ([`universe`],
//! [`sampler`]). Each draw becomes samples, one for each file that refers to the address,
//! and the samples add up along their paths and on a map of the devices ([`model`],
//! [`aggregator`]). From the sums come estimated sizes ([`level`], [`ranking`]), which are
//! shown as lines of styled text ([`screen`], [`info`], [`disk_map`]); [`ui`] says what each
//! key does, [`args`] reads the command line and [`mounts`] the table of mounts.
//!
//! Weights, sizes and rates are amounts on the binary64 grid, computed here in integers and
//! rounded as the hardware rounds ([`quantity`], on top of [`rounding`], [`mantissa`] and
//! [`root`]); [`accuracy`] says how far they are from exact ones, [`figures`] and [`text`] write them down.
pub mod accuracy;
pub mod aggregator;
pub mod args;
pub mod disk_map;
pub mod figures;
pub mod info;
pub mod level;
pub mod mantissa;
pub mod model;
pub mod mounts;
pub mod quantity;
pub mod ranking;
pub mod root;
pub mod rounding;
pub mod sampler;
pub mod screen;
pub mod text;
pub mod ui;
pub mod universe;
