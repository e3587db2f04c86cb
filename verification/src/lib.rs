//! A batched UDP datagram engine for a kernel submission/completion ring pair.
//!
//! The crate holds every decision the engine makes and none of its system
//! calls: the caller performs them and reports what the kernel answered.

pub mod address;
pub mod descriptor;
pub mod error;
pub mod outcome;
pub mod receive;
pub mod ring;
pub mod send;
