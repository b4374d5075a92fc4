//! A fixed-capacity FIFO of byte slices of any length, stored in one array.
//!
//! [`BytearrayRingbuffer`] keeps packets of different lengths side by side in a `[u8; N]`. What a
//! buffer holds is modelled by a [`model::Queue`], and every method states over it what it returns
//! and what it changes. The module [`laws`] states what follows for the buffer as a whole, and the
//! module [`meaning`] what the words of the contracts come to for a caller.

pub mod framing;
mod iter;
pub mod laws;
pub mod length;
pub mod meaning;
pub mod model;
mod multipart;
mod packet;
pub mod range;
mod ring;
pub mod wrapping;

pub use iter::{Iter, IterBackwards};
pub use multipart::MultipartPush;
pub use packet::{ExtendBytes, Packet};
pub use range::ByteRange;
pub use ring::{BytearrayRingbuffer, NotEnoughSpaceError};
