//! Core of a solver for the "breach protocol" hacking mini-game: reading the
//! code matrix and the daemon sequences off a screenshot, and searching for
//! the pick paths that upload as many daemons as the buffer allows.

pub mod img;
pub mod ocr;
pub mod recognize;
pub mod screen;
pub mod solver;
pub mod util;
