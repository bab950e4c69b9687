//! Verified core of a multi-channel serial telemetry monitor.
//!
//! Each channel ingests newline-delimited ASCII decimal values from one
//! serial device, optionally remaps them linearly from an input range to an
//! output range, and keeps a bounded sliding window of recent samples for a
//! rendering consumer. All values are carried exactly: decimals as integer
//! counts of millionths, remapped samples as rational numbers.

use vstd::prelude::*;

pub mod buffer;
pub mod channel;
pub mod framer;
pub mod parse;
pub mod rat;
pub mod supervisor;

verus! {

/// Baud rates offered by the configuration UI; a custom positive rate may
/// also be set directly on a [`ComSetting`].
#[derive(PartialEq, Eq, Structural, Clone, Copy, Debug)]
pub enum BaudRating {
    B9_600,
    B57_600,
    B115_200,
    B256_000,
    B512_000,
    B921_600,
    B3_000_000,
}

impl BaudRating {
    /// The rate in bits per second.
    pub open spec fn rate_spec(self) -> u32 {
        match self {
            BaudRating::B9_600 => 9_600,
            BaudRating::B57_600 => 57_600,
            BaudRating::B115_200 => 115_200,
            BaudRating::B256_000 => 256_000,
            BaudRating::B512_000 => 512_000,
            BaudRating::B921_600 => 921_600,
            BaudRating::B3_000_000 => 3_000_000,
        }
    }

    /// The rate in bits per second, as handed to the device when opening it.
    pub fn rate(self) -> (r: u32)
        ensures
            r == self.rate_spec(),
            r > 0,
    {
        match self {
            BaudRating::B9_600 => 9_600,
            BaudRating::B57_600 => 57_600,
            BaudRating::B115_200 => 115_200,
            BaudRating::B256_000 => 256_000,
            BaudRating::B512_000 => 512_000,
            BaudRating::B921_600 => 921_600,
            BaudRating::B3_000_000 => 3_000_000,
        }
    }
}

/// Connection parameters for one serial device: the device identifier and
/// the baud rate. Well-formed only while the rate is positive.
#[derive(Clone)]
pub struct ComSetting {
    pub port: String,
    pub baud_rate: u32,
}

impl ComSetting {
    pub open spec fn wf(&self) -> bool {
        self.baud_rate > 0
    }
}

} // verus!
