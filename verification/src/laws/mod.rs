//! What the calls promise their users, each said of the call itself: how what it gives back, and what it leaves behind, hangs
//! together with what it was given.

pub mod alike;
pub mod allocators;
pub mod areas;
pub mod arenas;
pub mod boots;
pub mod clones;
pub mod closings;
pub mod descriptors;
pub mod epolls;
pub mod files;
pub mod frames;
pub mod futexes;
pub mod listings;
pub mod machine;
pub mod mappings;
pub mod memory;
pub mod messages;
pub mod names;
pub mod polls;
pub mod resumptions;
pub mod scheduling;
pub mod sockets;
pub mod streams;
pub mod threads;
pub mod times;
pub mod transfers;
pub mod wakings;
pub mod words;
