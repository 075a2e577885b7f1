use vstd::prelude::*;
use crate::client::FiestaPacket;

verus! {

/// One unit of work for the dispatcher: a decoded packet and a handle to the
/// connection that it came from.
pub struct PacketProcessingInfo<C> {
    pub packet: FiestaPacket,
    pub client: C,
}

impl<C> PacketProcessingInfo<C> {
    pub fn new(packet: FiestaPacket, client: C) -> (r: Self)
        ensures
            r.packet == packet,
            r.client == client,
    {
        PacketProcessingInfo { packet, client }
    }
}

} // verus!
