//! A verified core for a generic colouriser: the grcat colourfile grammar,
//! Python-style string escapes, regexp dialect translation, lossless UTF-8
//! line decoding, the per-line colouring state machine and the `grc`
//! launcher's option and command-line matching rules.

pub mod text;
pub mod escape;
pub mod units;
pub mod colour;
pub mod regex;
pub mod config;
pub mod colourise;
pub mod render;
pub mod options;
pub mod select;


