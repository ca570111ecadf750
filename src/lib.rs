//! Reporting of CPU core temperatures from the hardware-monitor interface,
//! shaped by a positional segment language given on the command line.

pub mod text;
pub mod unit;
pub mod hwmon;
pub mod temps;
pub mod args;
pub mod segments;
