use vstd::prelude::*;
use vstd::pervasive::VecAdditionalExecFns;

use crate::rng::FaultRng;

verus! {

/// The typed bus faults the simulated sensor can raise. All are recoverable:
/// a caller is expected to retry.
#[derive(Clone, Copy, Debug, PartialEq, Eq, Structural)]
pub enum DemoI2CError {
    AddressNack,
    Transmit,
    Receive,
}

/// The model of the sensor: whether it has been calibrated, and the fixed
/// baseline temperature it reports around.
#[verifier::ext_equal]
pub ghost struct SensorModel {
    pub calibrated: bool,
    pub temperature: i16,
}

/// The two's-complement reinterpretation of a signed 16-bit value.
pub open spec fn u16_of_i16(v: i16) -> u16 {
    if v >= 0 {
        v as u16
    } else {
        (v + 0x10000) as u16
    }
}

/// The big-endian two-byte encoding of a signed 16-bit reading.
pub open spec fn be_bytes_of_i16(v: i16) -> Seq<u8> {
    seq![(u16_of_i16(v) >> 8) as u8, (u16_of_i16(v) & 0xff) as u8]
}

/// A calibrated measurement: the baseline temperature plus a variance,
/// encoded big-endian.
pub open spec fn measurement_reading(temp: i16, var: int) -> Seq<u8> {
    be_bytes_of_i16((temp + var) as i16)
}

pub open spec fn sensor_address() -> u8 {
    0x19
}

pub open spec fn reg_calibrate() -> u8 {
    0x11
}

pub open spec fn calibrate_bit() -> u8 {
    0x20
}

pub open spec fn reg_measurement() -> u8 {
    0x81
}

/// The sensor's baseline stays far enough from the 16-bit limits that adding
/// the bounded variance cannot wrap.
pub open spec fn sensor_wf(m: SensorModel) -> bool {
    -32000 <= m.temperature <= 32000
}

/// An I2C bus with a flakey temperature sensor on it. Reads and writes go
/// through one register-addressed operation; a seeded fault injector raises
/// occasional bus errors.
pub struct DemoI2CBus {
    is_calibrated: bool,
    temperature: i16,
    rng: FaultRng,
}

impl View for DemoI2CBus {
    type V = SensorModel;

    closed spec fn view(&self) -> SensorModel {
        SensorModel { calibrated: self.is_calibrated, temperature: self.temperature }
    }
}

impl DemoI2CBus {
    /// A fresh sensor bus with a fault injector seeded from the machine's
    /// entropy source (which aborts the process in the rare case that the
    /// source itself fails; `from_seed` avoids that).
    pub fn new() -> (s: DemoI2CBus)
        ensures
            !s@.calibrated,
            s@.temperature == 971,
            sensor_wf(s@),
    {
        DemoI2CBus { is_calibrated: false, temperature: 971i16, rng: FaultRng::from_entropy() }
    }

    /// A fresh sensor bus whose fault injector replays deterministically
    /// from the given seed.
    pub fn from_seed(seed: u64) -> (s: DemoI2CBus)
        ensures
            !s@.calibrated,
            s@.temperature == 971,
            sensor_wf(s@),
    {
        DemoI2CBus { is_calibrated: false, temperature: 971i16, rng: FaultRng::from_seed(seed) }
    }

    /// Whether the calibration register has been latched.
    pub fn is_calibrated(&self) -> (r: bool)
        ensures
            r == self@.calibrated,
    {
        self.is_calibrated
    }

    /// One register-addressed bus transaction: write `bytes`, read back into
    /// `buffer`. A wrong address is refused outright, an empty command is a
    /// receive error, and with small probability an injected fault raises
    /// one of the three bus errors. A calibration write with the calibrate
    /// bit latches the calibrated flag; a measurement read fills the first
    /// two buffer bytes — noise while uncalibrated, else the big-endian
    /// baseline plus a bounded random variance; any other register fills the
    /// buffer with noise.
    pub fn write_read(&mut self, address: u8, bytes: &[u8], buffer: &mut Vec<u8>) -> (r: Result<
        (),
        DemoI2CError,
    >)
        requires
            sensor_wf(old(self)@),
            bytes@.len() > 0 && bytes@[0] == reg_measurement() && old(self)@.calibrated ==> old(
                buffer,
            )@.len() >= 2,
        ensures
            final(self)@.temperature == old(self)@.temperature,
            sensor_wf(final(self)@),
            final(buffer)@.len() == old(buffer)@.len(),
            r is Err ==> final(self)@ == old(self)@ && final(buffer)@ == old(buffer)@,
            address != sensor_address() ==> r == Err::<(), DemoI2CError>(
                DemoI2CError::AddressNack,
            ),
            address == sensor_address() && bytes@.len() == 0 ==> r == Err::<(), DemoI2CError>(
                DemoI2CError::Receive,
            ),
            r is Ok ==> address == sensor_address() && bytes@.len() > 0,
            r is Ok && bytes@[0] == reg_calibrate() ==> final(self)@.calibrated == (
            old(self)@.calibrated || (bytes@.len() >= 2 && bytes@[1] & calibrate_bit() != 0))
                && final(buffer)@ == old(buffer)@,
            r is Ok && bytes@[0] == reg_measurement() ==> final(self)@.calibrated
                == old(self)@.calibrated,
            r is Ok && bytes@[0] == reg_measurement() && old(self)@.calibrated ==> (exists|var: int|
                -100 <= var < 100 && final(buffer)@ == #[trigger] measurement_reading(
                    old(self)@.temperature,
                    var,
                ) + old(buffer)@.subrange(2, old(buffer)@.len() as int)),
            r is Ok && bytes@[0] == reg_measurement() && !old(self)@.calibrated && old(
                buffer,
            )@.len() >= 2 ==> final(buffer)@.subrange(2, final(buffer)@.len() as int) == old(
                buffer,
            )@.subrange(2, old(buffer)@.len() as int),
            r is Ok && bytes@[0] == reg_measurement() && !old(self)@.calibrated && old(
                buffer,
            )@.len() < 2 ==> final(buffer)@ == old(buffer)@,
            r is Ok && bytes@[0] != reg_calibrate() && bytes@[0] != reg_measurement()
                ==> final(self)@ == old(self)@,
    {
        if address != 0x19 {
            return Err(DemoI2CError::AddressNack);
        }
        if bytes.len() == 0 {
            return Err(DemoI2CError::Receive);
        }
        // An injected bus fault, now and then.
        let fault = self.rng.roll_below(200);
        if fault == 1 {
            return Err(DemoI2CError::AddressNack);
        }
        if fault == 2 {
            return Err(DemoI2CError::Transmit);
        }
        if fault == 3 {
            return Err(DemoI2CError::Receive);
        }
        let reg = bytes[0];
        if reg == 0x11 {
            if bytes.len() >= 2 && (bytes[1] & 0x20) != 0 {
                self.is_calibrated = true;
            }
        } else if reg == 0x81 {
            if !self.is_calibrated {
                // An uncalibrated sensor answers with noise, where there is
                // room for the two reading bytes at all.
                if buffer.len() >= 2 {
                    buffer.set(0, self.rng.random_byte());
                    buffer.set(1, self.rng.random_byte());
                    proof {
                        assert(buffer@.subrange(2, buffer@.len() as int) =~= old(buffer)@.subrange(
                            2,
                            old(buffer)@.len() as int,
                        ));
                    }
                }
            } else {
                let roll = self.rng.roll_below(200);
                let var: i32 = roll as i32 - 100;
                let t: i16 = (self.temperature as i32 + var) as i16;
                let u: u16 = if t >= 0 {
                    t as u16
                } else {
                    ((t as i32) + 0x10000) as u16
                };
                proof {
                    assert(u == u16_of_i16(t));
                    assert((u >> 8) as int <= 255) by (bit_vector);
                    assert((u & 0xff) as int <= 255) by (bit_vector);
                }
                buffer.set(0, (u >> 8) as u8);
                buffer.set(1, (u & 0xff) as u8);
                proof {
                    assert(t as int == old(self)@.temperature + var as int);
                    assert(buffer@ =~= measurement_reading(old(self)@.temperature, var as int)
                        + old(buffer)@.subrange(2, old(buffer)@.len() as int));
                }
            }
        } else {
            // Any other register reads back noise.
            let mut i: usize = 0;
            let blen = buffer.len();
            while i < blen
                invariant
                    i <= blen,
                    buffer@.len() == blen,
                    self@ == old(self)@,
                decreases blen - i,
            {
                buffer.set(i, self.rng.random_byte());
                i += 1;
            }
        }
        Ok(())
    }

    /// A register write alone: a transaction with nothing read back. A
    /// measurement-register write on a calibrated sensor is left out: the
    /// transaction would then demand room for the two reading bytes that a
    /// bare write cannot supply.
    pub fn write(&mut self, addr: u8, bytes: &[u8]) -> (r: Result<(), DemoI2CError>)
        requires
            sensor_wf(old(self)@),
            bytes@.len() > 0 && bytes@[0] == reg_measurement() ==> !old(self)@.calibrated,
        ensures
            final(self)@.temperature == old(self)@.temperature,
            sensor_wf(final(self)@),
            r is Err ==> final(self)@ == old(self)@,
            addr != sensor_address() ==> r == Err::<(), DemoI2CError>(DemoI2CError::AddressNack),
            addr == sensor_address() && bytes@.len() == 0 ==> r == Err::<(), DemoI2CError>(
                DemoI2CError::Receive,
            ),
            r is Ok ==> addr == sensor_address() && bytes@.len() > 0,
            r is Ok && bytes@[0] == reg_calibrate() ==> final(self)@.calibrated == (old(
                self,
            )@.calibrated || (bytes@.len() >= 2 && bytes@[1] & calibrate_bit() != 0)),
            r is Ok && bytes@[0] != reg_calibrate() ==> final(self)@ == old(self)@,
    {
        let mut scratch: Vec<u8> = Vec::new();
        self.write_read(addr, bytes, &mut scratch)
    }

    /// A register read alone: the command is empty, so the simulated bus
    /// always answers — before any fault roll — with an address nack on a
    /// wrong address, else a receive error; it can never succeed.
    pub fn read(&mut self, address: u8, buffer: &mut Vec<u8>) -> (r: Result<(), DemoI2CError>)
        requires
            sensor_wf(old(self)@),
        ensures
            final(self)@ == old(self)@,
            final(buffer)@ == old(buffer)@,
            address != sensor_address() ==> r == Err::<(), DemoI2CError>(
                DemoI2CError::AddressNack,
            ),
            address == sensor_address() ==> r == Err::<(), DemoI2CError>(DemoI2CError::Receive),
    {
        let empty: [u8; 0] = [];
        self.write_read(address, empty.as_slice(), buffer)
    }
}

} // verus!
