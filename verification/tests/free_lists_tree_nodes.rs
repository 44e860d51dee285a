use umadb_core::common::{PageID, Tsn};
use umadb_core::free_lists_tree_nodes::{
    FreeListInternalNode, FreeListLeafNode, FreeListLeafValue, FreeListTsnInternalNode,
    FreeListTsnLeafNode,
};

#[test]
fn test_freelist_leaf_serialize() {
    // Create a FreeListLeafNode with known values
    let leaf_node = FreeListLeafNode {
        keys: vec![Tsn(10), Tsn(20), Tsn(30)],
        values: vec![
            FreeListLeafValue {
                page_ids: vec![PageID(100), PageID(101)],
                root_id: PageID(200),
            },
            FreeListLeafValue {
                page_ids: vec![PageID(102), PageID(103), PageID(104)],
                root_id: PageID(0),
            },
            FreeListLeafValue {
                page_ids: vec![PageID(105)],
                root_id: PageID(300),
            },
        ],
    };

    // Serialize the FreeListLeafNode
    let mut serialized = vec![0u8; leaf_node.calc_serialized_size()];
    leaf_node.serialize_into(&mut serialized);

    // Verify the serialized output is not empty
    assert!(!serialized.is_empty());

    // Deserialize back to a FreeListLeafNode using from_slice
    let deserialized =
        FreeListLeafNode::from_slice(&serialized).expect("Failed to deserialize FreeListLeafNode");

    // Verify that the deserialized node matches the original
    assert_eq!(leaf_node, deserialized);

    // Verify specific properties
    assert_eq!(3, deserialized.keys.len());
    assert_eq!(3, deserialized.values.len());

    // Check keys
    assert_eq!(Tsn(10), deserialized.keys[0]);
    assert_eq!(Tsn(20), deserialized.keys[1]);
    assert_eq!(Tsn(30), deserialized.keys[2]);

    // Check first value
    assert_eq!(2, deserialized.values[0].page_ids.len());
    assert_eq!(PageID(100), deserialized.values[0].page_ids[0]);
    assert_eq!(PageID(101), deserialized.values[0].page_ids[1]);
    assert_eq!(PageID(200), deserialized.values[0].root_id);

    // Check second value
    assert_eq!(3, deserialized.values[1].page_ids.len());
    assert_eq!(PageID(102), deserialized.values[1].page_ids[0]);
    assert_eq!(PageID(103), deserialized.values[1].page_ids[1]);
    assert_eq!(PageID(104), deserialized.values[1].page_ids[2]);
    assert_eq!(PageID(0), deserialized.values[1].root_id);

    // Check third value
    assert_eq!(1, deserialized.values[2].page_ids.len());
    assert_eq!(PageID(105), deserialized.values[2].page_ids[0]);
    assert_eq!(PageID(300), deserialized.values[2].root_id);
}

#[test]
fn test_freelist_internal_serialize() {
    // Create a FreeListInternalNode with known values
    let internal_node = FreeListInternalNode {
        keys: vec![Tsn(10), Tsn(20), Tsn(30)],
        child_ids: vec![PageID(100), PageID(200), PageID(300), PageID(400)],
    };

    // Serialize the FreeListInternalNode
    let mut serialized = vec![0u8; internal_node.calc_serialized_size()];
    internal_node.serialize_into(&mut serialized);

    // Verify the serialized output is not empty
    assert!(!serialized.is_empty());

    // Verify the serialized output has the correct structure
    // First 2 bytes: keys_len (3) = [3, 0] in little-endian
    assert_eq!(&[3, 0], &serialized[0..2]);

    // Next 24 bytes: 3 TSNs (8 bytes each)
    assert_eq!(&10u64.to_le_bytes(), &serialized[2..10]);
    assert_eq!(&20u64.to_le_bytes(), &serialized[10..18]);
    assert_eq!(&30u64.to_le_bytes(), &serialized[18..26]);

    // Next 2 bytes: child_ids_len (4) = [4, 0] in little-endian
    assert_eq!(&[4, 0], &serialized[26..28]);

    // Next 32 bytes: 4 PageIDs (8 bytes each)
    assert_eq!(&100u64.to_le_bytes(), &serialized[28..36]);
    assert_eq!(&200u64.to_le_bytes(), &serialized[36..44]);
    assert_eq!(&300u64.to_le_bytes(), &serialized[44..52]);
    assert_eq!(&400u64.to_le_bytes(), &serialized[52..60]);

    // Deserialize back to a FreeListInternalNode using from_slice
    let deserialized = FreeListInternalNode::from_slice(&serialized)
        .expect("Failed to deserialize FreeListInternalNode");

    // Verify that the deserialized node matches the original
    assert_eq!(internal_node, deserialized);

    // Verify specific properties
    assert_eq!(3, deserialized.keys.len());
    assert_eq!(4, deserialized.child_ids.len());

    // Check keys
    assert_eq!(Tsn(10), deserialized.keys[0]);
    assert_eq!(Tsn(20), deserialized.keys[1]);
    assert_eq!(Tsn(30), deserialized.keys[2]);

    // Check child_ids
    assert_eq!(PageID(100), deserialized.child_ids[0]);
    assert_eq!(PageID(200), deserialized.child_ids[1]);
    assert_eq!(PageID(300), deserialized.child_ids[2]);
    assert_eq!(PageID(400), deserialized.child_ids[3]);
}

#[test]
fn test_freelist_tsn_leaf_serialize() {
    // Create a FreeListTsnLeafNode with known values
    let node = FreeListTsnLeafNode {
        page_ids: vec![PageID(11), PageID(22), PageID(33), PageID(44)],
    };

    // Serialize
    let mut serialized = vec![0u8; node.calc_serialized_size()];
    node.serialize_into(&mut serialized);

    // Validate structure: 2 bytes length, then 4 page IDs
    assert_eq!(&[4, 0], &serialized[0..2]);
    assert_eq!(&11u64.to_le_bytes(), &serialized[2..10]);
    assert_eq!(&22u64.to_le_bytes(), &serialized[10..18]);
    assert_eq!(&33u64.to_le_bytes(), &serialized[18..26]);
    assert_eq!(&44u64.to_le_bytes(), &serialized[26..34]);

    // Deserialize and round-trip compare
    let deserialized = FreeListTsnLeafNode::from_slice(&serialized)
        .expect("Failed to deserialize FreeListTsnLeafNode");
    assert_eq!(node, deserialized);
    assert_eq!(4, deserialized.page_ids.len());
    assert_eq!(PageID(11), deserialized.page_ids[0]);
    assert_eq!(PageID(22), deserialized.page_ids[1]);
    assert_eq!(PageID(33), deserialized.page_ids[2]);
    assert_eq!(PageID(44), deserialized.page_ids[3]);
}

#[test]
fn test_freelist_tsn_internal_serialize() {
    // Create a FreeListTsnInternalNode with known values
    let node = FreeListTsnInternalNode {
        keys: vec![PageID(5), PageID(15), PageID(25)],
        child_ids: vec![PageID(1000), PageID(2000), PageID(3000), PageID(4000)],
    };

    // Serialize
    let mut serialized = vec![0u8; node.calc_serialized_size()];
    node.serialize_into(&mut serialized);

    // Validate structure
    // keys len = 3
    assert_eq!(&[3, 0], &serialized[0..2]);
    assert_eq!(&5u64.to_le_bytes(), &serialized[2..10]);
    assert_eq!(&15u64.to_le_bytes(), &serialized[10..18]);
    assert_eq!(&25u64.to_le_bytes(), &serialized[18..26]);
    // children len = 4
    assert_eq!(&[4, 0], &serialized[26..28]);
    assert_eq!(&1000u64.to_le_bytes(), &serialized[28..36]);
    assert_eq!(&2000u64.to_le_bytes(), &serialized[36..44]);
    assert_eq!(&3000u64.to_le_bytes(), &serialized[44..52]);
    assert_eq!(&4000u64.to_le_bytes(), &serialized[52..60]);

    // Deserialize and round-trip compare
    let deserialized = FreeListTsnInternalNode::from_slice(&serialized)
        .expect("Failed to deserialize FreeListTsnInternalNode");
    assert_eq!(node, deserialized);
    assert_eq!(3, deserialized.keys.len());
    assert_eq!(PageID(5), deserialized.keys[0]);
    assert_eq!(PageID(15), deserialized.keys[1]);
    assert_eq!(PageID(25), deserialized.keys[2]);
    assert_eq!(4, deserialized.child_ids.len());
    assert_eq!(PageID(1000), deserialized.child_ids[0]);
    assert_eq!(PageID(2000), deserialized.child_ids[1]);
    assert_eq!(PageID(3000), deserialized.child_ids[2]);
    assert_eq!(PageID(4000), deserialized.child_ids[3]);
}
