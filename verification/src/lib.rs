//! watch-floor — live surveillance of a Python package, comparing the working
//! tree against the baseline committed at git HEAD.
//!
//! [`app::App`] holds the two snapshots and the views compiled from them,
//! [`floor`] says what every line on screen shows, and [`report`] renders the
//! same picture as plain text.

pub mod text;
pub mod strmap;
pub mod sitrep;
pub mod dossier;
pub mod intercept;
pub mod pairing;
pub mod structure;
pub mod network;
pub mod look;
pub mod manual;
pub mod collection;
pub mod app;
pub mod report;
pub mod floor;
