//! Secure evaluation of one boolean gate between two parties, after Yao:
//! truth-table gates and circuits of them, a garbled table for a gate, the
//! part of it that is handed over once one party reveals its bit, and the
//! oblivious transfer by which the other party gets the key of one row.
//!
//! The encryption and the key schedule are the simplest that show the
//! protocol; they hide nothing.

pub mod bit;
pub mod circuit;
pub mod dag;
pub mod encryption;
pub mod error;
pub mod garble;
pub mod gate;
pub mod sealed;
pub mod transfer;
