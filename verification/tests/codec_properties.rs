use umadb_core::common::{PageID, Position, Tsn};
use umadb_core::errors::DbError;
use umadb_core::events_tree_nodes::{
    EventInternalNode, EventLeafNode, EventOverflowNode, EventRecord, EventUuid, EventValue,
};
use umadb_core::free_lists_tree_nodes::{
    FreeListInternalNode, FreeListLeafNode, FreeListLeafValue, FreeListTsnInternalNode,
    FreeListTsnLeafNode,
};

fn sample_leaf() -> EventLeafNode {
    EventLeafNode {
        keys: vec![Position(0), Position(1)],
        values: vec![
            EventValue::Inline(EventRecord {
                event_type: "e".to_string(),
                data: vec![1, 2, 3],
                tags: vec!["t".to_string()],
                uuid: None,
            }),
            EventValue::Overflow {
                event_type: "big".to_string(),
                data_len: 131072,
                tags: vec!["x".to_string(), "y".to_string()],
                root_id: PageID(42),
                uuid: Some(EventUuid { bytes: (0u8..16).collect() }),
            },
        ],
    }
}

#[test]
fn event_leaf_every_truncation_fails() {
    let node = sample_leaf();
    let mut buf = vec![0u8; node.calc_serialized_size()];
    let written = node.serialize_into(&mut buf);
    assert_eq!(written, buf.len());
    for cut in 0..written {
        let r = EventLeafNode::from_slice(&buf[..cut]);
        assert!(
            matches!(r, Err(DbError::DeserializationError(_))),
            "truncation to {cut} bytes must fail"
        );
    }
}

#[test]
fn event_internal_every_truncation_fails() {
    let node = EventInternalNode {
        keys: vec![Position(7), Position(9)],
        child_ids: vec![PageID(1), PageID(2), PageID(3)],
    };
    let mut buf = vec![0u8; node.calc_serialized_size()];
    let written = node.serialize_into(&mut buf).unwrap();
    for cut in 0..written {
        assert!(EventInternalNode::from_slice(&buf[..cut]).is_err());
    }
}

#[test]
fn free_list_nodes_every_truncation_fails() {
    let leaf = FreeListLeafNode {
        keys: vec![Tsn(3), Tsn(8)],
        values: vec![
            FreeListLeafValue { page_ids: vec![PageID(4)], root_id: PageID(0) },
            FreeListLeafValue { page_ids: vec![PageID(5), PageID(6)], root_id: PageID(9) },
        ],
    };
    let mut buf = vec![0u8; leaf.calc_serialized_size()];
    let written = leaf.serialize_into(&mut buf);
    for cut in 0..written {
        assert!(FreeListLeafNode::from_slice(&buf[..cut]).is_err());
    }

    let internal = FreeListInternalNode {
        keys: vec![Tsn(1)],
        child_ids: vec![PageID(2), PageID(3)],
    };
    let mut buf = vec![0u8; internal.calc_serialized_size()];
    let written = internal.serialize_into(&mut buf);
    for cut in 0..written {
        assert!(FreeListInternalNode::from_slice(&buf[..cut]).is_err());
    }

    let tsn_leaf = FreeListTsnLeafNode { page_ids: vec![PageID(1), PageID(2)] };
    let mut buf = vec![0u8; tsn_leaf.calc_serialized_size()];
    let written = tsn_leaf.serialize_into(&mut buf);
    for cut in 0..written {
        assert!(FreeListTsnLeafNode::from_slice(&buf[..cut]).is_err());
    }

    let tsn_internal = FreeListTsnInternalNode {
        keys: vec![PageID(10)],
        child_ids: vec![PageID(20), PageID(30)],
    };
    let mut buf = vec![0u8; tsn_internal.calc_serialized_size()];
    let written = tsn_internal.serialize_into(&mut buf);
    for cut in 0..written {
        assert!(FreeListTsnInternalNode::from_slice(&buf[..cut]).is_err());
    }
}

/// The overflow node is the one shape whose payload is "all remaining
/// bytes": cutting below the 8-byte successor field fails, while any longer
/// prefix still decodes, with a shortened payload.
#[test]
fn event_overflow_truncation_is_the_exception() {
    let node = EventOverflowNode { next: PageID(5), data: vec![9, 9, 9, 9] };
    let mut buf = vec![0u8; node.calc_serialized_size()];
    let written = node.serialize_into(&mut buf);
    for cut in 0..8 {
        assert!(EventOverflowNode::from_slice(&buf[..cut]).is_err());
    }
    for cut in 8..written {
        let de = EventOverflowNode::from_slice(&buf[..cut]).unwrap();
        assert_eq!(PageID(5), de.next);
        assert_eq!(&buf[8..cut], &de.data[..]);
    }
}

#[test]
fn unknown_flag_bits_are_rejected() {
    let node = EventLeafNode {
        keys: vec![Position(0)],
        values: vec![EventValue::Inline(EventRecord {
            event_type: "e".to_string(),
            data: vec![],
            tags: vec![],
            uuid: None,
        })],
    };
    let mut buf = vec![0u8; node.calc_serialized_size()];
    node.serialize_into(&mut buf);
    // The first value's flags byte sits right after the count and one key.
    let flags_at = 2 + 8;
    assert_eq!(0, buf[flags_at]);
    for bad in [4u8, 8, 0x10, 0x80, 0xFF] {
        buf[flags_at] = bad;
        assert!(matches!(
            EventLeafNode::from_slice(&buf),
            Err(DbError::DeserializationError(_))
        ));
    }
}

#[test]
fn length_prefix_byte_flip_is_detected() {
    let node = sample_leaf();
    let mut buf = vec![0u8; node.calc_serialized_size()];
    node.serialize_into(&mut buf);
    // Flipping the low byte of the key count makes the buffer inconsistent.
    buf[0] ^= 0xFF;
    assert!(matches!(
        EventLeafNode::from_slice(&buf),
        Err(DbError::DeserializationError(_))
    ));
}

#[test]
fn invalid_utf8_event_type_is_rejected() {
    // keys_len = 1, key = 0, flags = 0, et_len = 1, et byte = 0xFF (not UTF-8).
    let mut buf = vec![1u8, 0];
    buf.extend_from_slice(&0u64.to_le_bytes());
    buf.push(0); // flags: inline, no uuid
    buf.extend_from_slice(&[1, 0, 0xFF]);
    assert!(matches!(
        EventLeafNode::from_slice(&buf),
        Err(DbError::DeserializationError(_))
    ));
}

#[test]
fn non_ascii_text_round_trips() {
    let node = EventLeafNode {
        keys: vec![Position(4)],
        values: vec![EventValue::Inline(EventRecord {
            event_type: "tämä-törmäys-日誌".to_string(),
            data: vec![0xDE, 0xAD],
            tags: vec!["ßøé".to_string(), "λmed".to_string()],
            uuid: None,
        })],
    };
    let mut buf = vec![0u8; node.calc_serialized_size()];
    let written = node.serialize_into(&mut buf);
    assert_eq!(written, buf.len());
    let de = EventLeafNode::from_slice(&buf).unwrap();
    assert_eq!(node, de);
}

#[test]
fn empty_nodes_round_trip() {
    let leaf = EventLeafNode { keys: vec![], values: vec![] };
    let mut buf = vec![0u8; leaf.calc_serialized_size()];
    assert_eq!(2, buf.len());
    leaf.serialize_into(&mut buf);
    assert_eq!(leaf, EventLeafNode::from_slice(&buf).unwrap());

    let fl_leaf = FreeListLeafNode { keys: vec![], values: vec![] };
    let mut buf = vec![0u8; fl_leaf.calc_serialized_size()];
    fl_leaf.serialize_into(&mut buf);
    assert_eq!(fl_leaf, FreeListLeafNode::from_slice(&buf).unwrap());
}

#[test]
fn replace_last_child_id_detects_mismatch() {
    let mut node = EventInternalNode {
        keys: vec![Position(10)],
        child_ids: vec![PageID(1), PageID(2)],
    };
    assert!(node.replace_last_child_id(PageID(2), PageID(7)).is_ok());
    assert_eq!(vec![PageID(1), PageID(7)], node.child_ids);
    let r = node.replace_last_child_id(PageID(2), PageID(8));
    assert!(matches!(r, Err(DbError::DatabaseCorrupted(_))));
    assert_eq!(vec![PageID(1), PageID(7)], node.child_ids);
}

#[test]
fn event_internal_split_off_promotes_second_to_last_key() {
    let mut node = EventInternalNode {
        keys: vec![Position(10), Position(20), Position(30), Position(40)],
        child_ids: vec![PageID(1), PageID(2), PageID(3), PageID(4), PageID(5)],
    };
    let (promoted, new_keys, new_child_ids) = node.split_off().unwrap();
    assert_eq!(Position(30), promoted);
    assert_eq!(vec![Position(10), Position(20)], node.keys);
    assert_eq!(vec![Position(40)], new_keys);
    assert_eq!(vec![PageID(1), PageID(2), PageID(3)], node.child_ids);
    assert_eq!(vec![PageID(4), PageID(5)], new_child_ids);
}

#[test]
fn event_leaf_pop_returns_last_pair() {
    let mut node = sample_leaf();
    let (pos, value) = node.pop_last_key_and_value().unwrap();
    assert_eq!(Position(1), pos);
    assert!(matches!(value, EventValue::Overflow { .. }));
    assert_eq!(1, node.keys.len());
    assert_eq!(1, node.values.len());
}

#[test]
fn free_list_leaf_pop_and_push_helpers() {
    let mut node = FreeListLeafNode { keys: vec![], values: vec![] };
    node.push_new_key_and_value(Tsn(5), PageID(50));
    assert_eq!(vec![Tsn(5)], node.keys);
    assert_eq!(vec![PageID(50)], node.values[0].page_ids);
    assert_eq!(PageID(0), node.values[0].root_id);

    node.push_new_page_id(0, PageID(51));
    assert_eq!(vec![PageID(50), PageID(51)], node.values[0].page_ids);

    let (tsn, value) = node.pop_last_key_and_value().unwrap();
    assert_eq!(Tsn(5), tsn);
    assert_eq!(vec![PageID(50), PageID(51)], value.page_ids);
    assert!(node.keys.is_empty());
    assert!(node.values.is_empty());
}

#[test]
fn would_fit_checks_are_exact_at_the_boundary() {
    let leaf = FreeListLeafNode {
        keys: vec![Tsn(1)],
        values: vec![FreeListLeafValue { page_ids: vec![PageID(9)], root_id: PageID(0) }],
    };
    let size = leaf.calc_serialized_size();
    // A fresh (tsn, [page]) entry needs 26 more bytes.
    assert!(leaf.would_fit_new_tsn_and_page_id(size + 26));
    assert!(!leaf.would_fit_new_tsn_and_page_id(size + 25));
    // One more inline page id needs 8 more bytes.
    assert!(leaf.would_fit_new_page_id(size + 8));
    assert!(!leaf.would_fit_new_page_id(size + 7));

    let tsn_leaf = FreeListTsnLeafNode { page_ids: vec![PageID(1)] };
    let size = tsn_leaf.calc_serialized_size();
    assert!(tsn_leaf.would_fit_new_page_id(size + 8));
    assert!(!tsn_leaf.would_fit_new_page_id(size + 7));

    let tsn_internal = FreeListTsnInternalNode {
        keys: vec![PageID(1)],
        child_ids: vec![PageID(2), PageID(3)],
    };
    let size = tsn_internal.calc_serialized_size();
    assert!(tsn_internal.would_fit_new_key_and_child(size + 16));
    assert!(!tsn_internal.would_fit_new_key_and_child(size + 15));
}

/// A single event at position 0, as a reader would fetch it back: the leaf
/// image reproduces the record byte for byte.
#[test]
fn first_event_round_trips_byte_for_byte() {
    let record = EventRecord {
        event_type: "e".to_string(),
        data: vec![1, 2, 3],
        tags: vec!["t".to_string()],
        uuid: None,
    };
    let node = EventLeafNode {
        keys: vec![Position(0)],
        values: vec![EventValue::Inline(record.clone())],
    };
    let mut buf = vec![0u8; node.calc_serialized_size()];
    node.serialize_into(&mut buf);
    let de = EventLeafNode::from_slice(&buf).unwrap();
    assert_eq!(Position(0), de.keys[0]);
    match &de.values[0] {
        EventValue::Inline(r) => assert_eq!(&record, r),
        _ => panic!("expected an inline value"),
    }
}

/// A 128 KiB payload split across an overflow chain: each link carries at
/// most `page_size - header - 8` bytes, the links reassemble to exactly
/// `data_len` bytes, and the chain ends at `PageID(0)`.
#[test]
fn overflow_chain_reassembles_exactly() {
    let page_size = 4096usize;
    let header = 16usize;
    let per_page = page_size - header - 8;
    let total = 131072usize;
    let payload: Vec<u8> = (0..total).map(|i| (i % 251) as u8).collect();

    // Build the chain: link i holds payload[i*per_page..], pointing at i+1.
    let n_pages = total.div_ceil(per_page);
    let mut chain = Vec::new();
    for i in 0..n_pages {
        let lo = i * per_page;
        let hi = usize::min(lo + per_page, total);
        let next = if i + 1 < n_pages { PageID(100 + i as u64 + 1) } else { PageID(0) };
        chain.push(EventOverflowNode { next, data: payload[lo..hi].to_vec() });
    }

    // Serialize every link into a page-sized body, decode it back, and
    // reassemble by following `next` until PageID(0).
    let mut images = Vec::new();
    for node in &chain {
        assert!(node.calc_serialized_size() <= page_size - header);
        let mut buf = vec![0u8; node.calc_serialized_size()];
        node.serialize_into(&mut buf);
        images.push(buf);
    }
    let mut reassembled = Vec::new();
    let mut idx = 0usize;
    loop {
        let node = EventOverflowNode::from_slice(&images[idx]).unwrap();
        reassembled.extend_from_slice(&node.data);
        if node.next == PageID(0) {
            break;
        }
        idx += 1;
    }
    assert_eq!(total, reassembled.len());
    assert_eq!(payload, reassembled);

    // The leaf records only the metadata.
    let leaf = EventLeafNode {
        keys: vec![Position(0)],
        values: vec![EventValue::Overflow {
            event_type: "big".to_string(),
            data_len: total as u64,
            tags: vec![],
            root_id: PageID(100),
            uuid: None,
        }],
    };
    let mut buf = vec![0u8; leaf.calc_serialized_size()];
    leaf.serialize_into(&mut buf);
    match &EventLeafNode::from_slice(&buf).unwrap().values[0] {
        EventValue::Overflow { data_len, .. } => assert_eq!(131072, *data_len),
        _ => panic!("expected an overflow value"),
    }
}

/// Page-budget arithmetic for a 4096-byte page with a 16-byte header: 70
/// overflow-metadata records fit a single leaf, while 70 inline records with
/// 64-byte payloads and two tags do not — a real writer must spill such
/// payloads or split the leaf well before the 70th append.
#[test]
fn leaf_budget_for_seventy_records() {
    let page_budget = 4096 - 16;

    let overflow_values: Vec<EventValue> = (0..70)
        .map(|i| EventValue::Overflow {
            event_type: "ev".to_string(),
            data_len: 1024,
            tags: vec!["t0".to_string(), "t1".to_string()],
            root_id: PageID(1 + i as u64),
            uuid: None,
        })
        .collect();
    let keys: Vec<Position> = (0..70).map(|i| Position(i as u64)).collect();
    let leaf = EventLeafNode { keys: keys.clone(), values: overflow_values };
    // Per record: 8 key + 1 flags + (2+2) type + 8 len + 2 + 2*(2+2) tags + 8 root.
    assert_eq!(2 + 70 * (8 + 1 + 4 + 8 + 2 + 8 + 8), leaf.calc_serialized_size());
    assert!(leaf.calc_serialized_size() <= page_budget);

    let inline_values: Vec<EventValue> = (0..70)
        .map(|_| {
            EventValue::Inline(EventRecord {
                event_type: "ev".to_string(),
                data: vec![0xAB; 64],
                tags: vec!["t0".to_string(), "t1".to_string()],
                uuid: None,
            })
        })
        .collect();
    let leaf = EventLeafNode { keys, values: inline_values };
    // Per record: 8 key + 1 flags + (2+2) type + (2+64) data + 2 + 2*(2+2) tags.
    assert_eq!(2 + 70 * (8 + 1 + 4 + 66 + 2 + 8), leaf.calc_serialized_size());
    assert!(leaf.calc_serialized_size() > page_budget);
}

/// A record compares against stored values the way the query layer expects:
/// field for field against inline values, by type, tags and payload length
/// against overflow values.
#[test]
fn record_compares_against_stored_values() {
    let record = EventRecord {
        event_type: "e".to_string(),
        data: vec![1, 2, 3],
        tags: vec!["t".to_string()],
        uuid: None,
    };
    let inline = EventValue::Inline(record.clone());
    assert!(record == inline);
    assert!(inline == record);

    let mut other = record.clone();
    other.data = vec![9];
    assert!(!(other == inline));

    let overflow = EventValue::Overflow {
        event_type: "e".to_string(),
        data_len: 3,
        tags: vec!["t".to_string()],
        root_id: PageID(77),
        uuid: None,
    };
    assert!(record == overflow);
    let wrong_len = EventValue::Overflow {
        event_type: "e".to_string(),
        data_len: 4,
        tags: vec!["t".to_string()],
        root_id: PageID(77),
        uuid: None,
    };
    assert!(!(record == wrong_len));
}

/// The two internal-node layouts differ on purpose: the event tree derives
/// its child count from the key count, while the free-list tree encodes it
/// explicitly. Both carry the same keys and children here, yet the event
/// image is two bytes shorter and holds no second count.
#[test]
fn internal_node_layouts_differ_as_specified() {
    let event = EventInternalNode {
        keys: vec![Position(10), Position(20), Position(30)],
        child_ids: vec![PageID(1), PageID(2), PageID(3), PageID(4)],
    };
    let mut event_buf = vec![0u8; event.calc_serialized_size()];
    event.serialize_into(&mut event_buf).unwrap();
    assert_eq!(2 + 3 * 8 + 4 * 8, event_buf.len());
    // Keys end at byte 26; the first child id follows immediately.
    assert_eq!(&1u64.to_le_bytes(), &event_buf[26..34]);

    let fl = FreeListInternalNode {
        keys: vec![Tsn(10), Tsn(20), Tsn(30)],
        child_ids: vec![PageID(1), PageID(2), PageID(3), PageID(4)],
    };
    let mut fl_buf = vec![0u8; fl.calc_serialized_size()];
    fl.serialize_into(&mut fl_buf);
    assert_eq!(event_buf.len() + 2, fl_buf.len());
    // Keys end at byte 26; an explicit child count comes before the children.
    assert_eq!(&[4, 0], &fl_buf[26..28]);
    assert_eq!(&1u64.to_le_bytes(), &fl_buf[28..36]);
}

/// Serialization writes exactly `calc_serialized_size` bytes and leaves any
/// extra buffer tail untouched.
#[test]
fn serialize_reports_exact_size_and_preserves_tail() {
    let node = sample_leaf();
    let size = node.calc_serialized_size();
    let mut buf = vec![0xEE; size + 10];
    let written = node.serialize_into(&mut buf);
    assert_eq!(size, written);
    assert_eq!(vec![0xEE; 10], buf[size..].to_vec());
}
