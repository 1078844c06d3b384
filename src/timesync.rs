//! A module that reports, once per processed chunk, how far time has run.

use crate::queue::{Item, Queue, Receiver, Sender};
use vstd::prelude::*;

verus! {

/// Publishes a running time, advanced by a fixed tick per processed chunk.
pub struct TimeSync {
    from_monitor: Sender<u128>,
    tick: u128,
    time: u128,
}

impl TimeSync {
    pub closed spec fn spec_time(&self) -> u128 {
        self.time
    }

    pub closed spec fn spec_tick(&self) -> u128 {
        self.tick
    }

    /// A monitor at time zero advancing by `tick`, and the end on which its
    /// reports arrive.
    pub fn new(tick: u128) -> (r: (TimeSync, Receiver<u128>))
        ensures
            r.0.spec_time() == 0,
            r.0.spec_tick() == tick,
    {
        let (from_monitor, rx) = Queue::new();
        (TimeSync { from_monitor, time: 0, tick }, rx)
    }

    /// The number of audio buffers the module produces.
    pub fn n_bufs_out(&self) -> (r: usize)
        ensures
            r == 1,
    {
        1
    }

    /// The time reached so far.
    pub fn time(&self) -> (r: u128)
        ensures
            r == self.spec_time(),
    {
        self.time
    }

    /// Reports the current time, then advances it by one tick, wrapping
    /// around past the largest value.
    pub fn process(&mut self)
        ensures
            final(self).spec_tick() == old(self).spec_tick(),
            final(self).spec_time() == (old(self).spec_time() + old(self).spec_tick()) % (u128::MAX as int + 1),
    {
        self.from_monitor.send_item(Item::make_item(self.time));
        self.time = self.time.wrapping_add(self.tick);
    }
}

} // verus!
