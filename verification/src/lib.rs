//! Rendering composition and widget layout for an interactive client.
//!
//! The crate has two halves. [`multi_batch`] turns a tree of drawable
//! intents into the shortest sequence of draw submissions that respects the
//! tree's ordering. [`widget`] keeps a tree of widgets, asks a flexbox solver
//! for their rectangles whenever the tree was invalidated, produces the tree
//! of drawable intents for a frame, and dispatches pointer events.
//!
//! All coordinates are whole units held in `i64`; sums and differences
//! saturate at the ends of that range. [`stopwatch`] measures the time
//! between frames from the readings of a clock that the caller hands in.

pub mod geometry;
pub mod multi_batch;
pub mod batch_laws;
pub mod signal;
pub mod solver;
pub mod widget;
pub mod render_info;
pub mod pointer;
pub mod layout;
pub mod ui;
pub mod stopwatch;
