//! A multi-producer, single-consumer ring buffer of typed byte messages over
//! one region of 64-bit words: a data area followed by a trailer of counters.
pub mod layout;
pub mod model;
pub mod laws;
pub mod words;
pub mod claim;
pub mod ring_buffer;
pub mod shared;
pub mod scan;

pub use layout::{align, MIN_CAPACITY, TRAILER_LENGTH};
pub use model::RingBufferError;
pub use ring_buffer::{attach, RingBuffer};
pub use shared::{
    AdminCounters, Descriptor, ReadOnlyHead, ReadOnlyHeadCache, ReadOnlyTail, ReadWriteHead, ReadWriteHeadCache,
    ReadWriteTail, Receiver, Region, Sender,
};
