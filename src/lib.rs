//! Adaptive rate-controlled signalling daemon: the verified core.
//!
//! * [`control`]: the shared rate/mode state and the control protocol;
//! * [`frame`]: round-robin sequencing of an image directory's files;
//! * [`graph`]: the compatibility rewriter for loaded computation graphs, and
//!   [`pooling`]: why its padding rewrite keeps pooled values;
//! * [`input`] and [`detect`]: the detection pipeline around inference, and
//!   the heuristic that turns detections into a rate;
//! * [`signal`]: target tracking of the signalling loop;
//! * [`client`]: the command-line client's decisions.
use vstd::prelude::*;

pub mod client;
pub mod control;
pub mod detect;
pub mod frame;
pub mod graph;
pub mod input;
pub mod pooling;
pub mod signal;

pub use client::{enable_ai, next_image_path, set_fps, Config};
pub use control::{ControlMessage, ControlState, Mode, ServerAction};
pub use frame::{pick_frame, FrameCache, FrameCaches};

verus! {

} // verus!
