pub mod message;
pub mod node;
mod random;
pub mod graph;
pub mod sims;
pub mod teemp;
pub mod teemp_reach;
pub mod teemp_rounds;
pub mod rpc;
pub mod server;
pub mod client;
pub mod bfs;
pub mod completion;
pub mod echo;
pub mod echo_progress;
