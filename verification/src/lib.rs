use vstd::prelude::*;

pub mod bytes;
pub mod firmware;
pub mod laws;
pub mod modem;
pub mod rng;
pub mod sensor;

use crate::modem::{initial_model, wf_model, AtModem};
use crate::sensor::{sensor_wf, DemoI2CBus};

verus! {

/// The simulated development board: an I2C bus with a flakey temperature
/// sensor, an AT modem behind a serial link, and a timer. The timer's
/// actual sleeping lives outside the verified core, which only accounts
/// simulated latency.
pub struct Board {
    pub i2c_bus: DemoI2CBus,
    pub at_modem: AtModem,
    pub timer: Timer,
}

impl Board {
    pub fn new() -> (b: Board)
        ensures
            b.at_modem@ == initial_model(),
            wf_model(b.at_modem@),
            !b.i2c_bus@.calibrated,
            b.i2c_bus@.temperature == 971,
            sensor_wf(b.i2c_bus@),
    {
        Board { i2c_bus: DemoI2CBus::new(), at_modem: AtModem::new(), timer: Timer {  } }
    }
}

/// A placeholder for the board's delay timer. Delays model hardware
/// latency only; the verified core records them in the modem's elapsed
/// milliseconds and leaves actual sleeping to the surrounding program.
pub struct Timer {}

} // verus!
