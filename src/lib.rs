//! AS-level path inference over routing-table snapshots, and dissimilarity
//! metrics between sets of vantage points.

pub mod asset;
pub mod parse;
pub mod path;
pub mod splice;
pub mod view;
pub mod world;
