//! A congestion controller in the style of BBR, with every formula proved.

pub mod answers;
pub mod arithmetic;
pub mod bbr;
pub mod decimals;
pub mod double;
pub mod effects;
pub mod laws;
pub mod magnitude;
pub mod model;
pub mod order;
pub mod pacing;
pub mod rounding;
pub mod time;
pub mod timing;
