//! Verified solvers for three puzzle quests: a nail board through which
//! tokens fall, a volley of coloured bolts shot at balloons, and dice that
//! roll along a track.

pub mod quest01;
pub mod quest02;
pub mod quest03;
pub mod text;
