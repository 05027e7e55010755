//! Alignment of two offset camera feeds, and the plumbing that carries frames
//! to a background object detector and its results back.
//!
//! - [`frame`]: the owned three-channel 8-bit image every step works on.
//! - [`shift_search`]: exhaustive block matching that finds the integer shift
//!   between the feeds.
//! - [`matching`]: selection of descriptor matches for a homography fit.
//! - [`compositor`]: shifting a feed and taking channel-wise differences.
//! - [`suppression`]: non-maximum suppression of overlapping detections.
//! - [`channel`] and [`session`]: the request/response link to the detection
//!   worker, and the decisions made on each side of it.
//! - [`roi`]: the measurement windows and their channel sums.
//! - [`save_path`]: numbering of saved files.

pub mod channel;
pub mod compositor;
pub mod error;
pub mod frame;
pub mod matching;
pub mod roi;
pub mod save_path;
pub mod session;
pub mod shift_search;
pub mod suppression;
