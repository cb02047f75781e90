//! The verified core of a media player and library test harness.
use vstd::prelude::*;

pub mod args;
pub mod binary64;
pub mod calibration;
pub mod dlna;
pub mod doctor;
pub mod ffmpegbin;
pub mod fidelity;
pub mod http;
pub mod ipc;
pub mod json;
pub mod json_layout;
pub mod json_writer;
pub mod library_watch;
pub mod machine;
pub mod measure;
pub mod media;
pub mod mpvbin;
pub mod natural;
pub mod number;
pub mod numeral;
pub mod paths;
pub mod record;
pub mod reindex;
pub mod remote;
pub mod report;
pub mod scan;
pub mod session;
pub mod tally;
pub mod text;
pub mod verify;

verus! {

} // verus!
