//! Median-cut colour quantisation: a large collection of pixel colours is
//! reduced to a small palette by splitting it again and again along its widest
//! channel, near the mean, and averaging each part.
//!
//! - [`colour`]: colours, channels and the dominating channel of a colour;
//! - [`stats`]: the spread and the mean of a bucket of colours;
//! - [`sorting`]: ordering a stretch of pixels by one channel;
//! - [`partition`]: cutting one bucket in two;
//! - [`rounds`]: the working set as a model, and what rounds of cutting make
//!   of it;
//! - [`working_set`]: the pixels and the buckets that divide them;
//! - [`palette`]: the palette builder, [`generate_palette`].

pub mod colour;
pub mod palette;
pub mod partition;
pub mod rounds;
pub mod sorting;
pub mod stats;
pub mod working_set;

pub use colour::{Channel, Colour, ColourTrait};
pub use palette::generate_palette;
pub use partition::split_bucket;
pub use sorting::sort_by_channel;
pub use stats::{get_channel_mean, get_channel_ranges, get_mean};
pub use working_set::{Bucket, WorkingSet};
