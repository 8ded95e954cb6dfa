//! Tick-by-tick replay of a recorded computation graph.
//!
//! A [`recorder::Recorder`] turns a graph's sweep into one message per tick. A [`tape::Inner`] absorbs
//! them: it charts each node's series, counts its fires and holds the tick itself, in a bounded buffer
//! that thins with age rather than forgetting its front. The cursor ops in [`replay`] and [`ops`] walk
//! what is held, while it is still growing or once it is sealed, and [`file`] writes it down.
//!
//! [`model`] says what a tape is as a mathematical value; [`keeping`], [`retention`] and [`walking`]
//! prove what holds of every tape, of every run, and of every walk. [`reporting`], [`charting`],
//! [`searching`] and [`replaying`] say what each operation does of what goes in and what comes out, and
//! [`holding`] that the models say what the values hold. The remaining modules are the front ends' share:
//! what is drawn where, and what a key or an answer makes of the controls, with their laws in [`drawing`]
//! and [`steering`].
pub mod acts;
pub mod api_types;
pub mod board;
pub mod charting;
pub mod config;
pub mod controls;
pub mod cost;
pub mod drawing;
pub mod file;
pub mod floats;
pub mod frames;
pub mod gates;
pub mod holding;
pub mod keeping;
pub mod maps;
pub mod model;
pub mod names;
pub mod ops;
pub mod panel;
pub mod rank;
pub mod recorder;
pub mod replay;
pub mod replaying;
pub mod reporting;
pub mod retention;
pub mod searching;
pub mod session;
pub mod steering;
pub mod tape;
pub mod text;
pub mod thinning;
pub mod walking;
