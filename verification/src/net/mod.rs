//! Sockets, pipes and epoll.

pub mod abi;
pub mod device;
pub mod epoll;
pub mod nic;
pub mod pipe;
pub mod socket;
pub mod stack;
pub mod state;
pub mod stream;
pub mod tcp;
pub mod virtio;
pub mod wait;
