use umadb_core::common::{PageID, Position};
use umadb_core::events_tree_nodes::{
    EventInternalNode, EventLeafNode, EventOverflowNode, EventRecord, EventUuid, EventValue,
};
use uuid::Uuid;

/// The library stores an event identifier as its 16 raw bytes.
fn eu(u: &Uuid) -> EventUuid {
    EventUuid { bytes: u.as_bytes().to_vec() }
}

#[test]
fn test_event_internal_serialize() {
    // Create an EventInternalNode with known values
    let internal_node = EventInternalNode {
        keys: vec![Position(1000), Position(2000), Position(3000)],
        child_ids: vec![PageID(100), PageID(200), PageID(300), PageID(400)],
    };

    // Serialize the EventInternalNode
    let mut serialized = vec![0u8; internal_node.calc_serialized_size()];
    internal_node.serialize_into(&mut serialized).unwrap();

    // Verify the serialized output is not empty
    assert!(!serialized.is_empty());

    // Deserialize back to an EventInternalNode
    let deserialized =
        EventInternalNode::from_slice(&serialized).expect("Failed to deserialize EventInternalNode");

    // Verify that the deserialized node matches the original
    assert_eq!(internal_node, deserialized);

    // Verify specific properties
    assert_eq!(3, deserialized.keys.len());
    assert_eq!(4, deserialized.child_ids.len());

    // Check keys
    assert_eq!(Position(1000), deserialized.keys[0]);
    assert_eq!(Position(2000), deserialized.keys[1]);
    assert_eq!(Position(3000), deserialized.keys[2]);

    // Check child_ids
    assert_eq!(PageID(100), deserialized.child_ids[0]);
    assert_eq!(PageID(200), deserialized.child_ids[1]);
    assert_eq!(PageID(300), deserialized.child_ids[2]);
    assert_eq!(PageID(400), deserialized.child_ids[3]);
}

#[test]
fn test_event_leaf_serialize_without_uuid() {
    // Create an EventLeafNode with known values
    let leaf_node = EventLeafNode {
        keys: vec![Position(1000), Position(2000), Position(3000)],
        values: vec![
            EventValue::Inline(EventRecord {
                event_type: "event_type_1".to_string(),
                data: vec![1, 0, 0, 0], // 100 as little-endian bytes
                tags: vec!["tag1".to_string(), "tag2".to_string(), "tag3".to_string()],
                uuid: None,
            }),
            EventValue::Inline(EventRecord {
                event_type: "event_type_2".to_string(),
                data: vec![2, 0, 0, 0], // 200 as little-endian bytes
                tags: vec![
                    "tag4".to_string(),
                    "tag5".to_string(),
                    "tag6".to_string(),
                    "tag7".to_string(),
                ],
                uuid: None,
            }),
            EventValue::Inline(EventRecord {
                event_type: "event_type_3".to_string(),
                data: vec![3, 0, 0, 0], // 300 as little-endian bytes
                tags: vec!["tag8".to_string(), "tag9".to_string()],
                uuid: None,
            }),
        ],
    };

    // Serialize the EventLeafNode
    let mut serialized = vec![0u8; leaf_node.calc_serialized_size()];
    leaf_node.serialize_into(&mut serialized);

    // Verify the serialized output is not empty
    assert!(!serialized.is_empty());

    // Deserialize back to an EventLeafNode
    let deserialized =
        EventLeafNode::from_slice(&serialized).expect("Failed to deserialize EventLeafNode");

    // Verify that the deserialized node matches the original
    assert_eq!(leaf_node, deserialized);

    // Verify specific properties
    assert_eq!(3, deserialized.keys.len());
    assert_eq!(3, deserialized.values.len());

    // Check keys
    assert_eq!(Position(1000), deserialized.keys[0]);
    assert_eq!(Position(2000), deserialized.keys[1]);
    assert_eq!(Position(3000), deserialized.keys[2]);

    // Check first value
    match &deserialized.values[0] {
        EventValue::Inline(v) => {
            assert_eq!("event_type_1", v.event_type);
            assert_eq!(vec![1, 0, 0, 0], v.data);
            assert_eq!(
                vec!["tag1".to_string(), "tag2".to_string(), "tag3".to_string()],
                v.tags
            );
            assert_eq!(None, v.uuid);
        }
        _ => panic!("Expected Inline for first value"),
    }

    // Check second value
    match &deserialized.values[1] {
        EventValue::Inline(v) => {
            assert_eq!("event_type_2", v.event_type);
            assert_eq!(vec![2, 0, 0, 0], v.data);
            assert_eq!(
                vec![
                    "tag4".to_string(),
                    "tag5".to_string(),
                    "tag6".to_string(),
                    "tag7".to_string()
                ],
                v.tags
            );
            assert_eq!(None, v.uuid);
        }
        _ => panic!("Expected Inline for second value"),
    }

    // Check third value
    match &deserialized.values[2] {
        EventValue::Inline(v) => {
            assert_eq!("event_type_3", v.event_type);
            assert_eq!(vec![3, 0, 0, 0], v.data);
            assert_eq!(vec!["tag8".to_string(), "tag9".to_string()], v.tags);
            assert_eq!(None, v.uuid);
        }
        _ => panic!("Expected Inline for third value"),
    }
}

#[test]
fn test_event_leaf_serialize_with_uuid() {
    // Create an EventLeafNode with known values
    let uuid1 = Uuid::new_v4();
    let uuid2 = Uuid::new_v4();
    let uuid3 = Uuid::new_v4();
    let leaf_node = EventLeafNode {
        keys: vec![Position(1000), Position(2000), Position(3000)],
        values: vec![
            EventValue::Inline(EventRecord {
                event_type: "event_type_1".to_string(),
                data: vec![1, 0, 0, 0], // 100 as little-endian bytes
                tags: vec!["tag1".to_string(), "tag2".to_string(), "tag3".to_string()],
                uuid: Some(eu(&uuid1)),
            }),
            EventValue::Inline(EventRecord {
                event_type: "event_type_2".to_string(),
                data: vec![2, 0, 0, 0], // 200 as little-endian bytes
                tags: vec![
                    "tag4".to_string(),
                    "tag5".to_string(),
                    "tag6".to_string(),
                    "tag7".to_string(),
                ],
                uuid: Some(eu(&uuid2)),
            }),
            EventValue::Inline(EventRecord {
                event_type: "event_type_3".to_string(),
                data: vec![3, 0, 0, 0], // 300 as little-endian bytes
                tags: vec!["tag8".to_string(), "tag9".to_string()],
                uuid: Some(eu(&uuid3)),
            }),
        ],
    };

    // Serialize the EventLeafNode
    let mut serialized = vec![0u8; leaf_node.calc_serialized_size()];
    leaf_node.serialize_into(&mut serialized);

    // Verify the serialized output is not empty
    assert!(!serialized.is_empty());

    // Deserialize back to an EventLeafNode
    let deserialized =
        EventLeafNode::from_slice(&serialized).expect("Failed to deserialize EventLeafNode");

    // Verify that the deserialized node matches the original
    assert_eq!(leaf_node, deserialized);

    // Verify specific properties
    assert_eq!(3, deserialized.keys.len());
    assert_eq!(3, deserialized.values.len());

    // Check keys
    assert_eq!(Position(1000), deserialized.keys[0]);
    assert_eq!(Position(2000), deserialized.keys[1]);
    assert_eq!(Position(3000), deserialized.keys[2]);

    // Check first value
    match &deserialized.values[0] {
        EventValue::Inline(v) => {
            assert_eq!("event_type_1", v.event_type);
            assert_eq!(vec![1, 0, 0, 0], v.data);
            assert_eq!(
                vec!["tag1".to_string(), "tag2".to_string(), "tag3".to_string()],
                v.tags
            );
            assert_eq!(Some(eu(&uuid1)), v.uuid);
        }
        _ => panic!("Expected Inline for first value"),
    }

    // Check second value
    match &deserialized.values[1] {
        EventValue::Inline(v) => {
            assert_eq!("event_type_2", v.event_type);
            assert_eq!(vec![2, 0, 0, 0], v.data);
            assert_eq!(
                vec![
                    "tag4".to_string(),
                    "tag5".to_string(),
                    "tag6".to_string(),
                    "tag7".to_string()
                ],
                v.tags
            );
            assert_eq!(Some(eu(&uuid2)), v.uuid);
        }
        _ => panic!("Expected Inline for second value"),
    }

    // Check third value
    match &deserialized.values[2] {
        EventValue::Inline(v) => {
            assert_eq!("event_type_3", v.event_type);
            assert_eq!(vec![3, 0, 0, 0], v.data);
            assert_eq!(vec!["tag8".to_string(), "tag9".to_string()], v.tags);
            assert_eq!(Some(eu(&uuid3)), v.uuid);
        }
        _ => panic!("Expected Inline for third value"),
    }
}

#[test]
fn test_event_leaf_serialize_with_overflow_single_without_uuid() {
    let leaf_node = EventLeafNode {
        keys: vec![Position(111)],
        values: vec![EventValue::Overflow {
            event_type: "over_evt".to_string(),
            data_len: 1234567,
            tags: vec!["a".to_string(), "b".to_string()],
            root_id: PageID(123),
            uuid: None,
        }],
    };
    // Serialize
    let mut serialized = vec![0u8; leaf_node.calc_serialized_size()];
    leaf_node.serialize_into(&mut serialized);
    assert!(!serialized.is_empty());
    // Deserialize
    let deserialized = EventLeafNode::from_slice(&serialized)
        .expect("Failed to deserialize EventLeafNode with overflow");
    assert_eq!(leaf_node, deserialized);

    // Check specific fields
    assert_eq!(1, deserialized.keys.len());
    assert_eq!(Position(111), deserialized.keys[0]);
    assert_eq!(1, deserialized.values.len());
    match &deserialized.values[0] {
        EventValue::Overflow {
            event_type,
            data_len,
            tags,
            root_id,
            uuid,
        } => {
            assert_eq!("over_evt", event_type);
            assert_eq!(1234567, *data_len);
            assert_eq!(vec!["a".to_string(), "b".to_string()], *tags);
            assert_eq!(PageID(123), *root_id);
            assert_eq!(None, *uuid);
        }
        _ => panic!("Expected Overflow variant"),
    }
}

#[test]
fn test_event_leaf_serialize_with_overflow_single_with_uuid() {
    let uuid1 = Uuid::new_v4();
    let leaf_node = EventLeafNode {
        keys: vec![Position(111)],
        values: vec![EventValue::Overflow {
            event_type: "over_evt".to_string(),
            data_len: 1234567,
            tags: vec!["a".to_string(), "b".to_string()],
            root_id: PageID(123),
            uuid: Some(eu(&uuid1)),
        }],
    };
    // Serialize
    let mut serialized = vec![0u8; leaf_node.calc_serialized_size()];
    leaf_node.serialize_into(&mut serialized);
    assert!(!serialized.is_empty());
    // Deserialize
    let deserialized = EventLeafNode::from_slice(&serialized)
        .expect("Failed to deserialize EventLeafNode with overflow");
    assert_eq!(leaf_node, deserialized);

    // Check specific fields
    assert_eq!(1, deserialized.keys.len());
    assert_eq!(Position(111), deserialized.keys[0]);
    assert_eq!(1, deserialized.values.len());
    match &deserialized.values[0] {
        EventValue::Overflow {
            event_type,
            data_len,
            tags,
            root_id,
            uuid,
        } => {
            assert_eq!("over_evt", event_type);
            assert_eq!(1234567, *data_len);
            assert_eq!(vec!["a".to_string(), "b".to_string()], *tags);
            assert_eq!(PageID(123), *root_id);
            assert_eq!(Some(eu(&uuid1)), *uuid);
        }
        _ => panic!("Expected Overflow variant"),
    }
}

#[test]
fn test_event_leaf_serialize_mixed_inline_and_overflow() {
    let inline = EventValue::Inline(EventRecord {
        event_type: "inline_evt".to_string(),
        data: vec![1, 2, 3],
        tags: vec!["x".to_string()],
        uuid: None,
    });
    let overflow = EventValue::Overflow {
        event_type: "overflow_evt".to_string(),
        data_len: 9999,
        tags: vec!["y".to_string(), "z".to_string()],
        root_id: PageID(999),
        uuid: None,
    };
    let leaf_node = EventLeafNode {
        keys: vec![Position(10), Position(20)],
        values: vec![inline.clone(), overflow.clone()],
    };
    let mut serialized = vec![0u8; leaf_node.calc_serialized_size()];
    leaf_node.serialize_into(&mut serialized);
    let deserialized = EventLeafNode::from_slice(&serialized).unwrap();
    assert_eq!(leaf_node, deserialized);

    // Validate order and variants
    match &deserialized.values[0] {
        EventValue::Inline(rec) => {
            assert_eq!("inline_evt", rec.event_type);
            assert_eq!(vec![1, 2, 3], rec.data);
            assert_eq!(vec!["x".to_string()], rec.tags);
            assert_eq!(None, rec.uuid);
        }
        _ => panic!("Expected Inline at index 0"),
    }
    match &deserialized.values[1] {
        EventValue::Overflow {
            event_type,
            data_len,
            tags,
            root_id,
            uuid,
        } => {
            assert_eq!("overflow_evt", event_type);
            assert_eq!(9999, *data_len);
            assert_eq!(vec!["y".to_string(), "z".to_string()], *tags);
            assert_eq!(PageID(999), *root_id);
            assert_eq!(None, *uuid)
        }
        _ => panic!("Expected Overflow at index 1"),
    }
}

#[test]
fn test_event_overflow_node_serialize_roundtrip() {
    let node = EventOverflowNode {
        next: PageID(77),
        data: vec![7, 8, 9, 10],
    };
    let mut ser = vec![0u8; node.calc_serialized_size()];
    node.serialize_into(&mut ser);
    assert_eq!(8 + 4, ser.len()); // 8 bytes next + 4 bytes data
    let de = EventOverflowNode::from_slice(&ser).unwrap();
    assert_eq!(node, de);
    assert_eq!(PageID(77), de.next);
    assert_eq!(vec![7, 8, 9, 10], de.data);
}
