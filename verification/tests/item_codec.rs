use dt_codec::errors::DtError;
use dt_codec::item::{items_from_byte_data, items_to_byte_data, Item};

#[test]
fn decode_minimal_item_table() {
    // first offset 2 delimits a one-entry table; the record's stored
    // sub-offsets are skipped and the two strings follow at offset six
    let blob: Vec<u8> = vec![0x02, 0x00, 0x04, 0x00, 0x41, 0x00, 0x61, 0x62, 0x00];
    let items = items_from_byte_data(&blob).unwrap();
    assert_eq!(items.len(), 1);
    assert_eq!(items[0].item_id, 0);
    assert_eq!(items[0].item_name, "ab");
    assert_eq!(items[0].item_desc, "");
}

#[test]
fn canonical_item_table_round_trips_byte_identically() {
    let items = vec![Item { item_id: 0, item_name: "ab".to_string(), item_desc: String::new() }];
    let bytes = items_to_byte_data(&items);
    let expected: Vec<u8> = vec![
        0x02, 0x00, // table: one record at offset 2
        0x06, 0x00, // stored name address
        0x09, 0x00, // stored description address
        0x61, 0x62, 0x00, // "ab"
        0x00, // ""
    ];
    assert_eq!(bytes, expected);
    let back = items_from_byte_data(&bytes).unwrap();
    assert_eq!(back.len(), 1);
    assert_eq!(back[0].item_name, "ab");
    assert_eq!(back[0].item_desc, "");
    let again = items_to_byte_data(&back);
    assert_eq!(again, bytes);
}

#[test]
fn two_items_round_trip() {
    let items = vec![
        Item { item_id: 0, item_name: "sword".to_string(), item_desc: "sharp".to_string() },
        Item { item_id: 1, item_name: "shield".to_string(), item_desc: String::new() },
    ];
    let bytes = items_to_byte_data(&items);
    let back = items_from_byte_data(&bytes).unwrap();
    assert_eq!(back.len(), 2);
    assert_eq!(back[0].item_id, 0);
    assert_eq!(back[0].item_name, "sword");
    assert_eq!(back[0].item_desc, "sharp");
    assert_eq!(back[1].item_id, 1);
    assert_eq!(back[1].item_name, "shield");
    assert_eq!(back[1].item_desc, "");
    assert_eq!(items_to_byte_data(&back), bytes);
}

#[test]
fn empty_input_is_truncated() {
    let blob: Vec<u8> = vec![];
    assert_eq!(items_from_byte_data(&blob).unwrap_err(), DtError::TruncatedInput);
}

#[test]
fn odd_first_offset_is_truncated() {
    let blob: Vec<u8> = vec![0x05, 0x00, 0x00, 0x00, 0x00];
    assert_eq!(items_from_byte_data(&blob).unwrap_err(), DtError::TruncatedInput);
}

#[test]
fn first_offset_past_end_is_truncated() {
    let blob: Vec<u8> = vec![0x08, 0x00, 0x00, 0x00];
    assert_eq!(items_from_byte_data(&blob).unwrap_err(), DtError::TruncatedInput);
}
