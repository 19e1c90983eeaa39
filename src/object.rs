//! Kinds of MIDI objects, by their platform codes.

use vstd::prelude::*;

verus! {

pub const OBJECT_TYPE_OTHER: i32 = -1;
pub const OBJECT_TYPE_DEVICE: i32 = 0;
pub const OBJECT_TYPE_ENTITY: i32 = 1;
pub const OBJECT_TYPE_SOURCE: i32 = 2;
pub const OBJECT_TYPE_DESTINATION: i32 = 3;
pub const OBJECT_TYPE_EXTERNAL_DEVICE: i32 = 16;
pub const OBJECT_TYPE_EXTERNAL_ENTITY: i32 = 17;
pub const OBJECT_TYPE_EXTERNAL_SOURCE: i32 = 18;
pub const OBJECT_TYPE_EXTERNAL_DESTINATION: i32 = 19;

/// The kind of a MIDI object.
#[derive(Copy, Clone, Debug, Hash, PartialEq, Eq, Structural)]
pub enum ObjectType {
    Other,
    Device,
    Entity,
    Source,
    Destination,
    ExternalDevice,
    ExternalEntity,
    ExternalSource,
    ExternalDestination,
}

/// The object type that a code names, or the code back when it names none.
pub open spec fn object_type_of_code(value: i32) -> Result<ObjectType, i32> {
    if value == OBJECT_TYPE_OTHER {
        Ok(ObjectType::Other)
    } else if value == OBJECT_TYPE_DEVICE {
        Ok(ObjectType::Device)
    } else if value == OBJECT_TYPE_ENTITY {
        Ok(ObjectType::Entity)
    } else if value == OBJECT_TYPE_SOURCE {
        Ok(ObjectType::Source)
    } else if value == OBJECT_TYPE_DESTINATION {
        Ok(ObjectType::Destination)
    } else if value == OBJECT_TYPE_EXTERNAL_DEVICE {
        Ok(ObjectType::ExternalDevice)
    } else if value == OBJECT_TYPE_EXTERNAL_ENTITY {
        Ok(ObjectType::ExternalEntity)
    } else if value == OBJECT_TYPE_EXTERNAL_SOURCE {
        Ok(ObjectType::ExternalSource)
    } else if value == OBJECT_TYPE_EXTERNAL_DESTINATION {
        Ok(ObjectType::ExternalDestination)
    } else {
        Err(value)
    }
}

impl ObjectType {
    /// The object type that a code names; the code itself as the error when
    /// it names none.
    pub fn from_code(value: i32) -> (r: Result<ObjectType, i32>)
        ensures
            r == object_type_of_code(value),
    {
        if value == OBJECT_TYPE_OTHER {
            Ok(ObjectType::Other)
        } else if value == OBJECT_TYPE_DEVICE {
            Ok(ObjectType::Device)
        } else if value == OBJECT_TYPE_ENTITY {
            Ok(ObjectType::Entity)
        } else if value == OBJECT_TYPE_SOURCE {
            Ok(ObjectType::Source)
        } else if value == OBJECT_TYPE_DESTINATION {
            Ok(ObjectType::Destination)
        } else if value == OBJECT_TYPE_EXTERNAL_DEVICE {
            Ok(ObjectType::ExternalDevice)
        } else if value == OBJECT_TYPE_EXTERNAL_ENTITY {
            Ok(ObjectType::ExternalEntity)
        } else if value == OBJECT_TYPE_EXTERNAL_SOURCE {
            Ok(ObjectType::ExternalSource)
        } else if value == OBJECT_TYPE_EXTERNAL_DESTINATION {
            Ok(ObjectType::ExternalDestination)
        } else {
            Err(value)
        }
    }
}

impl TryFrom<i32> for ObjectType {
    type Error = i32;

    fn try_from(value: i32) -> (r: Result<ObjectType, i32>) {
        ObjectType::from_code(value)
    }
}

impl vstd::std_specs::convert::TryFromSpecImpl<i32> for ObjectType {
    open spec fn obeys_try_from_spec() -> bool {
        true
    }

    open spec fn try_from_spec(value: i32) -> Result<ObjectType, i32> {
        object_type_of_code(value)
    }
}

} // verus!
