//! A fair-share dispatcher core for a reverse proxy in front of a single
//! inference backend: per-user FIFO queues, a round-robin scheduler, task
//! accounting, a block-list, and the admission decisions of the ingress
//! handler. The surrounding HTTP server, worker loop and dashboard drive
//! these entry points from an ordinary (unverified) binary.

pub mod dispatcher;
pub mod laws;
pub mod responder;
pub mod strings;
