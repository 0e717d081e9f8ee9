//! Decision logic of a latency-injecting interposition layer.
//!
//! The crate decides, for each intercepted resolution, socket-association and
//! I/O call, whether the host, address or descriptor involved is tracked and
//! how long the call is to be delayed. It holds no process-wide state and
//! performs no I/O: callers own the state, guard it with their own locks and
//! hand the outcome of each lock attempt to the functions here.
//!
//! - [`config`]: the configuration and how it is read from three variables.
//! - [`hooks`]: the tracked addresses and descriptors, and what each hook
//!   decides.
//! - [`toggle`]: the oscillating toggle that can gate injection globally.
//! - [`util`]: NUL-terminated strings and the texts of socket addresses.
//! - [`sorted`]: texts in order, and lists kept in order.
//! - [`text_laws`]: the text of an address determines the address.

pub mod config;
pub mod hooks;
pub mod sorted;
pub mod text_laws;
pub mod toggle;
pub mod util;
