//! The MIDI protocol that an event list carries.

use vstd::prelude::*;

verus! {

/// Identifier of MIDI 1.0.
pub const MIDI_PROTOCOL_1_0: i32 = 1;

/// Identifier of MIDI 2.0.
pub const MIDI_PROTOCOL_2_0: i32 = 2;

/// The MIDI protocol of an event list's messages.
#[derive(Debug, Clone, Copy, PartialEq, Eq, Structural)]
pub enum Protocol {
    /// MIDI 1.0
    Midi10,
    /// MIDI 2.0
    Midi20,
    /// An identifier of a protocol that has no variant of its own.
    Unsupported(i32),
}

/// The protocol that an identifier names.
pub open spec fn protocol_of_id(id: i32) -> Protocol {
    if id == MIDI_PROTOCOL_1_0 {
        Protocol::Midi10
    } else if id == MIDI_PROTOCOL_2_0 {
        Protocol::Midi20
    } else {
        Protocol::Unsupported(id)
    }
}

/// The identifier of a protocol.
pub open spec fn id_of_protocol(p: Protocol) -> i32 {
    match p {
        Protocol::Midi10 => MIDI_PROTOCOL_1_0,
        Protocol::Midi20 => MIDI_PROTOCOL_2_0,
        Protocol::Unsupported(id) => id,
    }
}

impl Protocol {
    /// The protocol that an identifier names.
    pub fn from_id(id: i32) -> (r: Protocol)
        ensures
            r == protocol_of_id(id),
    {
        if id == MIDI_PROTOCOL_1_0 {
            Protocol::Midi10
        } else if id == MIDI_PROTOCOL_2_0 {
            Protocol::Midi20
        } else {
            Protocol::Unsupported(id)
        }
    }

    /// The protocol's identifier.
    pub fn id(&self) -> (r: i32)
        ensures
            r == id_of_protocol(*self),
    {
        match self {
            Protocol::Midi10 => MIDI_PROTOCOL_1_0,
            Protocol::Midi20 => MIDI_PROTOCOL_2_0,
            Protocol::Unsupported(id) => *id,
        }
    }
}

/// Naming a protocol by its identifier and reading it back gives the
/// protocol again, unless an unsupported identifier is one that has a
/// variant of its own.
pub proof fn lemma_protocol_id_round_trip(p: Protocol)
    requires
        !(p is Unsupported) || (p->Unsupported_0 != MIDI_PROTOCOL_1_0 && p->Unsupported_0
            != MIDI_PROTOCOL_2_0),
    ensures
        protocol_of_id(id_of_protocol(p)) == p,
{
}

impl From<i32> for Protocol {
    fn from(id: i32) -> (r: Protocol) {
        Protocol::from_id(id)
    }
}

impl vstd::std_specs::convert::FromSpecImpl<i32> for Protocol {
    open spec fn obeys_from_spec() -> bool {
        true
    }

    open spec fn from_spec(id: i32) -> Protocol {
        protocol_of_id(id)
    }
}

impl From<Protocol> for i32 {
    fn from(p: Protocol) -> (r: i32) {
        p.id()
    }
}

impl vstd::std_specs::convert::FromSpecImpl<Protocol> for i32 {
    open spec fn obeys_from_spec() -> bool {
        true
    }

    open spec fn from_spec(p: Protocol) -> i32 {
        id_of_protocol(p)
    }
}

} // verus!
