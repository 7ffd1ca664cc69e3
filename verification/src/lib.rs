//! Verified core of the riddle diary: the ink-coverage map and placement
//! resolver, the touch-gesture recognizer, skeleton thinning and tracing,
//! the `/turn` card model with its clamps, the card render planner, and
//! the decisions of the diary's main loop.

pub mod cardrender;
pub mod cards;
pub mod diary;
pub mod geom;
pub mod layout;
pub mod script;
pub mod session;
pub mod surface;
pub mod touch;
