use umadb_core::common::{PageID, Tsn};
use umadb_core::errors::DbError;
use umadb_core::superblock::Superblock;

/// The header of a freshly created database at the default page size: no
/// commit yet, no event tree, page 0 reserved for the superblock itself.
fn empty_db_superblock() -> Superblock {
    Superblock {
        page_size: 4096,
        tsn: Tsn(0),
        event_root: PageID(0),
        free_root: PageID(0),
        next_page_id: PageID(1),
        oldest_live_reader_tsn: Tsn(0),
    }
}

#[test]
fn empty_database_superblock_round_trips() {
    let sb = empty_db_superblock();
    let mut page = vec![0xEEu8; 4096];
    let written = sb.serialize_into(&mut page);
    assert_eq!(4096, written);

    // Fixed fields in order: magic "UMAD", version 1, page size, then the
    // snapshot fields; everything after them is zero padding.
    assert_eq!(&0x554D4144u32.to_le_bytes(), &page[0..4]);
    assert_eq!(&1u16.to_le_bytes(), &page[4..6]);
    assert_eq!(&4096u32.to_le_bytes(), &page[6..10]);
    assert_eq!(&0u64.to_le_bytes(), &page[10..18]); // tsn = 0
    assert_eq!(&0u64.to_le_bytes(), &page[18..26]); // event root = 0
    assert!(page[50..].iter().all(|b| *b == 0));

    let back = Superblock::from_slice(&page).unwrap();
    assert_eq!(sb, back);
    assert_eq!(Tsn(0), back.tsn);
    assert_eq!(PageID(0), back.event_root);
}

#[test]
fn committed_superblock_round_trips() {
    let sb = Superblock {
        page_size: 8192,
        tsn: Tsn(17),
        event_root: PageID(23),
        free_root: PageID(24),
        next_page_id: PageID(99),
        oldest_live_reader_tsn: Tsn(12),
    };
    let mut page = vec![0u8; 8192];
    assert_eq!(8192, sb.serialize_into(&mut page));
    assert_eq!(sb, Superblock::from_slice(&page).unwrap());
}

#[test]
fn superblock_rejects_wrong_magic_and_version() {
    let sb = empty_db_superblock();
    let mut page = vec![0u8; 4096];
    sb.serialize_into(&mut page);

    let mut bad_magic = page.clone();
    bad_magic[0] ^= 1;
    assert!(matches!(
        Superblock::from_slice(&bad_magic),
        Err(DbError::DeserializationError(_))
    ));

    let mut bad_version = page.clone();
    bad_version[4] = 2;
    assert!(matches!(
        Superblock::from_slice(&bad_version),
        Err(DbError::DeserializationError(_))
    ));
}

#[test]
fn superblock_rejects_truncated_header() {
    let sb = empty_db_superblock();
    let mut page = vec![0u8; 4096];
    sb.serialize_into(&mut page);
    for cut in 0..50 {
        assert!(Superblock::from_slice(&page[..cut]).is_err());
    }
    // The padding itself may be cut: the fixed fields still decode.
    assert_eq!(sb, Superblock::from_slice(&page[..50]).unwrap());
}
