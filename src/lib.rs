//! Intersection synthesis: traffic-signal stage plans and pedestrian turns,
//! over exact fixed-point plane geometry.
pub mod geom;
pub mod map;
pub mod ring;
pub mod signal;
pub mod synthesis;
pub mod walking;
