//! A first-in, first-out queue that keeps its values in their encoded form,
//! packed one behind the other into a single byte vector.
//!
//! `layout` says what a queue is, as a mathematical value, and what each move
//! of its read and write paths does to it. `queue` and `writer` hold the
//! code, `codec` and `bytes` the calls that are taken on trust, `growth` the
//! rule by which storage grows, and `framing` and `laws` what is proved of
//! all this.

pub mod bytes;
pub mod codec;
pub mod framing;
pub mod growth;
pub mod laws;
pub mod layout;
pub mod queue;
pub mod writer;

pub use crate::codec::{DecodeError, EncodeError};
pub use crate::growth::next_capacity;
pub use crate::queue::SerdeQueue;
