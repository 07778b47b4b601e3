//! The batch of readings that the CO2 sensor reports: the time of the
//! newest reading, the interval between readings, and the readings, oldest
//! first.

use crate::wire::{le_u16, le_u64, read_u16_le, read_u64_le};
use vstd::prelude::*;
use vstd::slice::slice_subrange;

verus! {

/// Why a sensor report could not be read.
#[derive(Clone, Copy, Debug, PartialEq, Eq, Structural)]
pub enum SensorError {
    /// The report ends before its last reading.
    UnexpectedEof,
    /// The oldest reading would lie before time zero.
    TimeOutOfRange,
}

/// The readings of one report, oldest first, each with its time.
pub struct CO2Readings {
    pub timings: Vec<u32>,
    pub readings: Vec<u32>,
}

/// What a report holds.
pub struct ReadingsView {
    pub timings: Seq<u32>,
    pub readings: Seq<u32>,
}

impl View for CO2Readings {
    type V = ReadingsView;

    open spec fn view(&self) -> ReadingsView {
        ReadingsView { timings: self.timings@, readings: self.readings@ }
    }
}

/// The time of reading `i` of `count`, where the last was taken at `latest`
/// and each `interval` after the one before.
pub open spec fn reading_time(latest: u64, interval: u64, count: u16, i: int) -> int {
    latest - interval * (count - 1 - i)
}

/// The report that the bytes `b` hold: the time of the newest reading and
/// the interval, eight bytes each, the number of readings in two bytes, and
/// two bytes for each reading. A time is kept as its low 32 bits.
pub open spec fn parse_report(b: Seq<u8>) -> Result<ReadingsView, SensorError> {
    if b.len() < 18 {
        Err(SensorError::UnexpectedEof)
    } else {
        let latest = le_u64(b);
        let interval = le_u64(b.skip(8));
        let count = le_u16(b.skip(16));
        if count > 0 && reading_time(latest, interval, count, 0) < 0 {
            Err(SensorError::TimeOutOfRange)
        } else if b.len() < 18 + 2 * count {
            Err(SensorError::UnexpectedEof)
        } else {
            Ok(
                ReadingsView {
                    timings: Seq::new(
                        count as nat,
                        |i: int| (reading_time(latest, interval, count, i) % 0x1_0000_0000) as u32,
                    ),
                    readings: Seq::new(count as nat, |i: int| le_u16(b.skip(18 + 2 * i)) as u32),
                },
            )
        }
    }
}

/// Reads a sensor report.
pub fn parse_co2_readings(buffer: &[u8]) -> (r: Result<CO2Readings, SensorError>)
    ensures
        match parse_report(buffer@) {
            Ok(v) => r matches Ok(got) && got@ == v,
            Err(e) => r matches Err(got) && got == e,
        },
{
    if buffer.len() < 18 {
        return Err(SensorError::UnexpectedEof);
    }
    let latest_time = read_u64_le(slice_subrange(buffer, 0, 8));
    let interval_bytes = slice_subrange(buffer, 8, 16);
    assert(interval_bytes@ =~= buffer@.skip(8).take(8));
    let read_interval = read_u64_le(interval_bytes);
    assert(read_interval == le_u64(buffer@.skip(8))) by {
        assert(interval_bytes@.skip(4) =~= buffer@.skip(8).skip(4).take(4));
    }
    let reading_count = read_u16_le(slice_subrange(buffer, 16, 18));
    if reading_count > 0 {
        let span = match read_interval.checked_mul((reading_count - 1) as u64) {
            Some(span) => span,
            None => {
                return Err(SensorError::TimeOutOfRange);
            },
        };
        if span > latest_time {
            return Err(SensorError::TimeOutOfRange);
        }
    }
    let mut timings: Vec<u32> = Vec::new();
    let mut readings: Vec<u32> = Vec::new();
    let mut i: u16 = 0;
    while i < reading_count
        invariant
            i <= reading_count,
            buffer@.len() >= 18,
            latest_time == le_u64(buffer@),
            read_interval == le_u64(buffer@.skip(8)),
            reading_count == le_u16(buffer@.skip(16)),
            reading_count > 0 ==> reading_time(latest_time, read_interval, reading_count, 0) >= 0,
            buffer@.len() >= 18 + 2 * i,
            timings@.len() == i,
            readings@.len() == i,
            forall|j: int|
                0 <= j < i ==> timings@[j] == (reading_time(
                    latest_time,
                    read_interval,
                    reading_count,
                    j,
                ) % 0x1_0000_0000) as u32,
            forall|j: int| 0 <= j < i ==> readings@[j] == le_u16(buffer@.skip(18 + 2 * j)) as u32,
        decreases reading_count - i,
    {
        let back = (reading_count - i - 1) as u64;
        assert(0 <= read_interval * back <= read_interval * (reading_count - 1))
            by (nonlinear_arith)
            requires
                0 <= back <= reading_count - 1,
                0 <= read_interval,
        ;
        let time = latest_time - read_interval * back;
        assert(time as u32 == time % 0x1_0000_0000) by (bit_vector);
        timings.push(#[verifier::truncate] (time as u32));
        let at: usize = 18 + 2 * (i as usize);
        if buffer.len() - at < 2 {
            return Err(SensorError::UnexpectedEof);
        }
        let value = read_u16_le(slice_subrange(buffer, at, at + 2));
        readings.push(value as u32);
        i += 1;
    }
    let result = CO2Readings { timings, readings };
    assert(result@.timings =~= parse_report(buffer@)->Ok_0.timings);
    assert(result@.readings =~= parse_report(buffer@)->Ok_0.readings);
    Ok(result)
}

} // verus!
