//! A simulator of the C11 relaxed memory model: a log of completed writes per
//! address and a view per thread that together decide which values a load may
//! return.
//!
//! The engine of [`log`] is driven one operation at a time. Its stamps
//! ([`stamp`], [`fence_stamp`]), records ([`record`]) and thread views
//! ([`thread_view`]) each have a view over plain values, and [`model`] says
//! over those views what every operation makes of a state. [`wellformed`] and
//! [`growth`] show that the operations keep the state well formed and that
//! nothing in it goes back; [`laws`] states what follows for every run of
//! [`event`]s: program order, release and acquire, release sequences, fences
//! and sequential consistency.
//!
//! The random choices of the engine are words of a ChaCha8 stream
//! ([`random`]), so a seed fixes a run. [`schedule`] holds what a
//! cooperative driver decides: which queued operation of which thread may
//! run next.

pub mod event;
pub mod fence_stamp;
pub mod growth;
pub mod history;
pub mod index;
pub mod laws;
pub mod level;
pub mod log;
pub mod model;
pub mod random;
pub mod record;
pub mod schedule;
pub mod stamp;
pub mod thread_view;
pub mod wellformed;
