//! Lock-free-style parameter transfer: a fixed-size table of scalar slots
//! together with a change bitmap, so that a control side can publish values
//! and a consumer side can drain exactly the set of changed slots.

pub mod bit_words;
pub mod parameter_transfer;
