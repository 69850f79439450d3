use vstd::prelude::*;

verus! {

/// Reference data for one cell tower. The position is kept in millionths of a degree.
#[derive(Debug)]
pub struct CellRecord {
    pub cell_id: u32,
    pub latitude_micro: i32,
    pub longitude_micro: i32,
}

/// One voice call between two parties. The two party slots carry no direction.
#[derive(Debug)]
pub struct CallRecord {
    pub index: u32,
    pub party1: String,
    pub party2: String,
    pub duration: u32,
    pub timestamp: u32,
    pub cell_id: u32,
}

/// One text message between two parties. The two party slots carry no direction.
#[derive(Debug)]
pub struct MessageRecord {
    pub party1: String,
    pub party2: String,
    pub timestamp: u32,
    pub length: u32,
}

/// Relies on rand::random: it draws a value from the thread-local generator.
/// Nothing is known of the value drawn.
pub assume_specification<T>[ rand::random::<T> ]() -> (r: T)
    where
        rand::distributions::Standard: rand::distributions::Distribution<T>,
;

impl CallRecord {
    /// A call between two empty parties that carries the given index, duration,
    /// timestamp and cell.
    pub fn from_draws(index: u32, duration: u32, timestamp: u32, cell_id: u32) -> (r: CallRecord)
        ensures
            r.index == index,
            r.duration == duration,
            r.timestamp == timestamp,
            r.cell_id == cell_id,
            r.party1@ == Seq::<char>::empty(),
            r.party2@ == Seq::<char>::empty(),
    {
        CallRecord { index, party1: String::new(), party2: String::new(), duration, timestamp, cell_id }
    }

    /// A call with random index, duration, timestamp and cell, between two empty
    /// parties; `from_draws` builds it from the four values drawn.
    pub fn mocked() -> (r: CallRecord)
        ensures
            r.party1@ == Seq::<char>::empty(),
            r.party2@ == Seq::<char>::empty(),
    {
        let index: u32 = rand::random();
        let duration: u32 = rand::random();
        let timestamp: u32 = rand::random();
        let cell_id: u32 = rand::random();
        CallRecord::from_draws(index, duration, timestamp, cell_id)
    }
}

} // verus!
