//! A correlation/join engine for dataflow graphs: context tokens with stacked
//! map frames, fan-out and ordered fan-in state machines, and two N-way join
//! strategies (positional FIFO alignment and context-key correlation with a
//! TTL+capacity cache).

pub mod cache;
pub mod collect;
pub mod correlated;
pub mod duration;
pub mod errors;
pub mod fanout;
pub mod flow;
pub mod nested;
pub mod ports;
pub mod positional;
pub mod record;
pub mod scanner;
pub mod slotsync;
pub mod strings;
pub mod token;
pub mod value;
pub mod zip;
