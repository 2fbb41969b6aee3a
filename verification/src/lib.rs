//! The core of a serial plotter.
//!
//! Bytes arrive from a device in chunks of any size. They are cut into full
//! lines ([`lines`]), the lines are read as fields that hold numbers, names
//! and times ([`parser`]), and the samples found are kept in histories of
//! bounded size, one for each position on the line ([`session`],
//! [`fixedsizebuffer`]). Numbers are held as exact decimals ([`decimal`]):
//! nothing is rounded before it is drawn.
//!
//! Every function states what it returns and changes, and the statements are
//! proved. What is taken on trust of the standard library and of the clock is
//! marked where it stands: in [`chars`], [`lines`] and [`clock`].

pub mod appearance;
pub mod chars;
pub mod clock;
pub mod decimal;
pub mod fixedsizebuffer;
pub mod lines;
pub mod parser;
pub mod plotpage;
pub mod sample;
pub mod serialconnection;
pub mod session;
