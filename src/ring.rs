//! The single-slot timestamp ring between the audio worker and the engine,
//! provided by the `ringbuf` crate.

use vstd::prelude::*;

verus! {

#[verifier::external_type_specification]
#[verifier::external_body]
#[verifier::reject_recursive_types(T)]
pub struct ExRingBuffer<T>(ringbuf::RingBuffer<T>);

#[verifier::external_type_specification]
#[verifier::external_body]
#[verifier::reject_recursive_types(T)]
pub struct ExProducer<T>(ringbuf::Producer<T>);

#[verifier::external_type_specification]
#[verifier::external_body]
#[verifier::reject_recursive_types(T)]
pub struct ExConsumer<T>(ringbuf::Consumer<T>);

/// Relies on `RingBuffer::new`, which makes room for `capacity + 1` slots
/// and so overflows at the largest capacity.
pub assume_specification<T>[ ringbuf::RingBuffer::<T>::new ](capacity: usize) -> ringbuf::RingBuffer<T>
    requires
        capacity < usize::MAX,
;

/// Relies on `RingBuffer::split`, which hands out the two ends.
pub assume_specification<T>[ ringbuf::RingBuffer::<T>::split ](rb: ringbuf::RingBuffer<T>) -> (
    ringbuf::Producer<T>,
    ringbuf::Consumer<T>,
);

/// Relies on `Producer::push`: when the ring is full the element comes back
/// in `Err`.
pub assume_specification<T>[ ringbuf::Producer::<T>::push ](p: &mut ringbuf::Producer<T>, elem: T) -> (r:
    Result<(), T>)
    ensures
        r matches Err(e) ==> e == elem,
;

/// Relies on `Consumer::pop`, which takes the oldest element, if any. What
/// it returns depends on the producer's thread.
pub assume_specification<T>[ ringbuf::Consumer::<T>::pop ](c: &mut ringbuf::Consumer<T>) -> Option<T>;

/// Makes a ring that holds one timestamp: the newest one the engine has not
/// read yet.
pub fn timestamp_ring() -> (ringbuf::Producer<u128>, ringbuf::Consumer<u128>) {
    let rb: ringbuf::RingBuffer<u128> = ringbuf::RingBuffer::new(1);
    rb.split()
}

} // verus!
