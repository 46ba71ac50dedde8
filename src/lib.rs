//! Operation lifecycle and resource ownership for a completion-queue I/O reactor.
//!
//! The library holds the bookkeeping that decides, for every operation handed
//! to the kernel, which resources it pins, which correlation tag it carries,
//! when its completion record turns into a typed result, and when a shared
//! descriptor may finally be closed. Driving the kernel rings is left to the
//! caller, which feeds completion records back in.
pub mod buf;
pub mod op;
pub mod reactor;
pub mod sqe;
