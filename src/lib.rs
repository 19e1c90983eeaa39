//! A growable encoder for timestamped MIDI message lists, laid out byte for
//! byte as the platform's packet lists and event lists.

pub mod bytes;
pub mod endpoints;
pub mod events;
pub mod object;
pub mod packets;
pub mod protocol;
pub mod sequence;
pub mod status;
pub mod storage;

pub use endpoints::{Destinations, DestinationsIterator, Sources, SourcesIterator};
pub use events::{EventBuffer, EventList, EventListIter, EventPacket};
pub use object::ObjectType;
pub use packets::{Packet, PacketBuffer, PacketList, PacketListIterator, Timestamp};
pub use protocol::Protocol;
