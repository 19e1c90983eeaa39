use coremidi::status::{result_from_status, unit_result_from_status};
use coremidi::object::{OBJECT_TYPE_DESTINATION, OBJECT_TYPE_DEVICE, OBJECT_TYPE_ENTITY, OBJECT_TYPE_EXTERNAL_DESTINATION, OBJECT_TYPE_EXTERNAL_DEVICE, OBJECT_TYPE_EXTERNAL_ENTITY, OBJECT_TYPE_EXTERNAL_SOURCE, OBJECT_TYPE_OTHER, OBJECT_TYPE_SOURCE};
use coremidi::{Destinations, ObjectType, Protocol, Sources};

#[test]
fn objecttype_try_from() {
    assert_eq!(ObjectType::try_from(OBJECT_TYPE_OTHER), Ok(ObjectType::Other));
    assert_eq!(ObjectType::try_from(OBJECT_TYPE_DEVICE), Ok(ObjectType::Device));
    assert_eq!(ObjectType::try_from(OBJECT_TYPE_ENTITY), Ok(ObjectType::Entity));
    assert_eq!(ObjectType::try_from(OBJECT_TYPE_SOURCE), Ok(ObjectType::Source));
    assert_eq!(ObjectType::try_from(OBJECT_TYPE_DESTINATION), Ok(ObjectType::Destination));
    assert_eq!(ObjectType::try_from(OBJECT_TYPE_EXTERNAL_DEVICE), Ok(ObjectType::ExternalDevice));
    assert_eq!(ObjectType::try_from(OBJECT_TYPE_EXTERNAL_ENTITY), Ok(ObjectType::ExternalEntity));
    assert_eq!(ObjectType::try_from(OBJECT_TYPE_EXTERNAL_SOURCE), Ok(ObjectType::ExternalSource));
    assert_eq!(
        ObjectType::try_from(OBJECT_TYPE_EXTERNAL_DESTINATION),
        Ok(ObjectType::ExternalDestination)
    );
}

#[test]
fn objecttype_from_error() {
    assert_eq!(ObjectType::try_from(0xffff_i32), Err(0xffff));
}

#[test]
fn objecttype_codes() {
    assert_eq!(ObjectType::from_code(-1), Ok(ObjectType::Other));
    assert_eq!(ObjectType::from_code(19), Ok(ObjectType::ExternalDestination));
    assert_eq!(ObjectType::from_code(4), Err(4));
}

#[test]
fn protocol_ids() {
    assert_eq!(Protocol::from(1), Protocol::Midi10);
    assert_eq!(Protocol::from(2), Protocol::Midi20);
    assert_eq!(Protocol::from(3), Protocol::Unsupported(3));
    assert_eq!(i32::from(Protocol::Midi10), 1);
    assert_eq!(i32::from(Protocol::Midi20), 2);
    assert_eq!(i32::from(Protocol::Unsupported(9)), 9);
}

#[test]
fn endpoint_walks_stop_at_count() {
    let mut it = Destinations::iter_with_count(2);
    assert_eq!(it.next_index(), Some(0));
    assert_eq!(it.next_index(), Some(1));
    assert_eq!(it.next_index(), None);
    assert_eq!(it.next_index(), None);
    let mut it = Sources::iter_with_count(0);
    assert_eq!(it.next_index(), None);
}

#[test]
fn status_codes_map_to_results() {
    assert_eq!(unit_result_from_status(0), Ok(()));
    assert_eq!(unit_result_from_status(-10830), Err(-10830));
    assert_eq!(result_from_status(0, 5u32), Ok(5));
    assert_eq!(result_from_status(7, 5u32), Err(7));
}
