//! A fixed-capacity ring buffer queue with verified cursor arithmetic.
//!
//! [`RingBuffer`] is the queue; [`cursor`] holds the arithmetic on its two
//! cursors and the decisions a producer or a consumer takes from a snapshot
//! of them; [`capacity`] says which slot counts a ring can have; [`fifo`]
//! holds the mathematical queue that the contracts are written in, and what
//! is proved of it.

pub mod buffer;
pub mod capacity;
pub mod cursor;
pub mod fifo;

pub use crate::buffer::RingBuffer;
pub use crate::capacity::is_power_of_two;
