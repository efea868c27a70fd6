//! Flash wear estimation for SD cards.
//!
//! From the write counters that the kernel keeps for a block device, the library estimates
//! how much is written to the flash behind it, how worn the flash is, and how long it will
//! last. It takes what the system reports as plain texts and numbers.
//!
//! Reading what the system reports:
//! - [`text`]: words, lines and decimal numbers;
//! - [`kernel`]: the write counters;
//! - [`card`]: the capacity and the erase block size;
//! - [`mounts`]: where the file systems of a device are mounted;
//! - [`fullness`]: how full they are;
//! - [`clock`]: the time.
//!
//! Estimating the wear:
//! - [`waf`]: the write amplification;
//! - [`blending`]: what it owes to pages, merging and garbage collection;
//! - [`state`]: the persistent state, and how activity changes it;
//! - [`preset`]: what a health that the user gives stands for;
//! - [`wear`]: the rate of wear, and the years that are left;
//! - [`settings`]: the ranges of the settings;
//! - [`monitor`]: one poll after the other;
//! - [`messages`]: what the user is told.
//!
//! The figures are binary64 numbers, held as bit patterns, with an arithmetic whose results
//! are proved to be the exact ones, rounded to the nearest number:
//! - [`binary64`]: the numbers and their order;
//! - [`rounding`]: rounding to the nearest number;
//! - [`arithmetic`]: the operations;
//! - [`order`]: how they keep the order of numbers;
//! - [`precision`]: how near their results are to the exact ones;
//! - [`render`]: numbers as text;
//! - [`accuracy`]: what the figures are, up to rounding.

pub mod text;
pub mod kernel;
pub mod card;
pub mod mounts;
pub mod fullness;
pub mod clock;

pub mod waf;
pub mod blending;
pub mod state;
pub mod preset;
pub mod wear;
pub mod settings;
pub mod monitor;
pub mod messages;

pub mod binary64;
pub mod rounding;
pub mod arithmetic;
pub mod order;
pub mod precision;
pub mod accuracy;
pub mod render;
