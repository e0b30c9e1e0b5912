//! Two fixed-capacity, preallocated ring containers: an overwrite-on-full
//! circular buffer with positional lookback, and a reject-on-full circular
//! FIFO queue. Both allocate their storage once at construction and never
//! grow; every operation is constant-time index arithmetic over that block.

mod modular;
pub mod ring_buffer;
pub mod ring_queue;

pub use ring_buffer::CircularBuffer;
pub use ring_queue::QueueError;
pub use ring_queue::StaticSizeQueue;
