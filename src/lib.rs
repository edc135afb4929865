//! A single persistent record of fixed-size keys, packed into a resizable
//! storage slot whose funding balance follows the slot's size.

pub mod codec;
pub mod laws;
pub mod layout;
pub mod resize;

pub use layout::{DynError, DynamicState, KeyElement, KEY_SIZE};
pub use resize::{initialize, reconcile, same_key, update, Slot};
