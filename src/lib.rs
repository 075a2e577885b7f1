use vstd::prelude::*;

pub mod buffer;
pub mod client;
pub mod packetproc;
pub mod server;

pub use buffer::{BinaryPeekable, BinaryReadable, Buffer, BufferError, BUFFERSIZE};
pub use client::{FiestaNetworkClient, FiestaPacket, Interest, ReadOutcome, WriteOutcome};
pub use packetproc::PacketProcessingInfo;
pub use server::{route, EventTarget, FiestaHandler, SERVER_TOKEN};

verus! {

} // verus!
