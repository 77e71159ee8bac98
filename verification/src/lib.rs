//! Lock-free channels as verified protocols.
//!
//! - [`mpmc`] is an unbounded multi-producer, multi-consumer channel, built on the queue of
//!   [`ms_queue`] and the stack of [`treiber_stack`].
//! - [`oneshot`] is a channel for a single value.
//!
//! Each operation is a state machine that says which access to shared memory, to the clock or
//! to a thread comes next. The queue, the stack and the channels hold their shared state and
//! the operations under way, and make one access of one operation at a time; accesses are
//! sequentially consistent. What is proved of them holds of every interleaving.
pub mod counting;
pub mod error;
pub mod memory;
pub mod mpmc;
pub mod mpmc_channel;
pub mod mpmc_history;
pub mod mpmc_laws;
pub mod mpmc_model;
pub mod mpmc_progress;
pub mod mpmc_protocol;
pub mod mpmc_wakeup;
pub mod ms_queue;
pub mod ms_queue_history;
pub mod ms_queue_proof;
pub mod oneshot;
pub mod oneshot_channel;
pub mod oneshot_history;
pub mod oneshot_laws;
pub mod oneshot_protocol;
pub mod reclamation;
pub mod treiber_stack;
pub mod treiber_stack_history;
pub mod treiber_stack_proof;
