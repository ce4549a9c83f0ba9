//! Terminal agent interface: the response protocol, edit commands, agent
//! state and the decision logic of the tick loop, with their contracts.

pub mod agent;
pub mod backend;
pub mod server;
pub mod numfmt;
pub mod progress;
pub mod response;
pub mod session;
pub mod state;
pub mod text;
pub mod types;
