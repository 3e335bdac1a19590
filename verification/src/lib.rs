//! Introspection of a Linux guest from the hypervisor that runs it: the kernel's banner is
//! searched for in the guest's memory, and from there the table of its TCP sockets, whose
//! connections are logged.
//!
//! All that is decided here is decided from what the guest's memory holds, and nothing
//! here touches that memory. Each function takes the state of its task and the event that
//! woke it, and returns the next state and either the next question about the guest or
//! the result of the task.

pub mod banner;
pub mod guest_mem;
pub mod guest_read;
pub mod guest_symbols;
pub mod guest_word;
pub mod sock_cache;
pub mod tcp_bucket;
pub mod tcp_log;
pub mod tcp_sock;
