use player_color_param::{from_binary_data, read_cstring, to_binary_data};
use player_color_param::{CodecError, EntryKey, PlayerColorParam, RGB};

#[test]
fn from_empty_binary() {
    let data = vec![
        0xE8, 0x03, 0x00, 0x00, // version: u32 = 1000
        0x00, 0x00, 0x00, 0x00, // entry_count: u32 = 0
        0x08, 0x00, 0x00, 0x00, 0x00, 0x00, 0x00, 0x00, // data_offset: u64 = 8
    ];

    let result = from_binary_data(&data).unwrap();
    assert_eq!(result.len(), 0);
}

#[test]
fn from_invalid_version() {
    let data: Vec<u8> = vec![
        0xE9, 0x03, 0x00, 0x00, // version: u32 = 1001
        0x00, 0x00, 0x00, 0x00, // entry_count: u32 = 0
        0x08, 0x00, 0x00, 0x00, 0x00, 0x00, 0x00, 0x00, // data_offset: u64 = 8
    ];

    let result = from_binary_data(&data);
    assert!(!result.is_ok());
}

#[test]
fn from_example_binary() {
    let data = vec![
        0xE8, 0x03, 0x00, 0x00, // version: u32 = 1000
        0x02, 0x00, 0x00, 0x00, // entry_count: u32 = 2
        0x10, 0x00, 0x00, 0x00, 0x00, 0x00, 0x00, 0x00, // data_offset: u64 = 16
        0x68, 0x65, 0x6C, 0x6C, 0x6F, 0x00, 0x00, 0x00, // "hello"
        0x30, 0x00, 0x00, 0x00, 0x00, 0x00, 0x00, 0x00, // character_id_ptr: u64 = 48
        0x03, 0x00, 0x00, 0x00, // costume_index: u32 = 3
        0x40, 0x00, 0x00, 0x00, // red: u32 = 64
        0x52, 0x00, 0x00, 0x00, // blue: u32 = 82
        0xC5, 0x00, 0x00, 0x00, // green: u32 = 197
        0x20, 0x00, 0x00, 0x00, 0x00, 0x00, 0x00, 0x00, // character_id_ptr: u64 = 32
        0x03, 0x00, 0x00, 0x00, // costume_index: u32 = 3
        0x8F, 0x00, 0x00, 0x00, // red: u32 = 143
        0xF6, 0x00, 0x00, 0x00, // blue: u32 = 246
        0x48, 0x00, 0x00, 0x00, // green: u32 = 72
        0x31, 0x6A, 0x6E, 0x74, 0x30, 0x31, 0x00, 0x00, // character_id = "1jnt01"
        0x31, 0x6A, 0x6E, 0x74, 0x30, 0x31, 0x00, 0x00, // character_id = "1jnt01"
    ];

    let result = from_binary_data(&data).unwrap();

    println!("{:#?}", result);

    let key = EntryKey {
        character_id: "1jnt01".to_string(),
        costume_index: 3,
        alt_index: 0,
    };
    assert!(result.get(&key).is_some());
    assert_eq!(
        result.get(&key).unwrap(),
        RGB { red: 64, green: 197, blue: 82 }
    );

    let key = EntryKey {
        character_id: "1jnt01".to_string(),
        costume_index: 3,
        alt_index: 1,
    };
    assert!(result.get(&key).is_some());
    assert_eq!(
        result.get(&key).unwrap(),
        RGB { red: 143, green: 72, blue: 246 }
    );
}

#[test]
fn to_example_binary() {
    let mut param = PlayerColorParam::new();
    param.insert(
        EntryKey {
            character_id: "1jnt01".to_string(),
            costume_index: 3,
            alt_index: 0,
        },
        RGB { red: 64, green: 197, blue: 82 },
    );
    param.insert(
        EntryKey {
            character_id: "1jnt01".to_string(),
            costume_index: 3,
            alt_index: 1,
        },
        RGB { red: 143, green: 72, blue: 246 },
    );
    param.insert(
        EntryKey {
            character_id: "2jsp01".to_string(),
            costume_index: 0,
            alt_index: 0,
        },
        RGB { red: 0, green: 0, blue: 0 },
    );
    param.insert(
        EntryKey {
            character_id: "1jnt01".to_string(),
            costume_index: 2,
            alt_index: 0,
        },
        RGB { red: 255, green: 255, blue: 255 },
    );

    let binary_data = to_binary_data(&param);

    let expected_output = vec![
        0xE8, 0x03, 0x00, 0x00, // version: u32 = 1000
        0x04, 0x00, 0x00, 0x00, // entry_count: u32 = 4
        0x08, 0x00, 0x00, 0x00, 0x00, 0x00, 0x00, 0x00, // data_offset: u64 = 8
        0x60, 0x00, 0x00, 0x00, 0x00, 0x00, 0x00, 0x00, // character_id_ptr: u64 = 96
        0x02, 0x00, 0x00, 0x00, // costume_index: u32 = 2
        0xFF, 0x00, 0x00, 0x00, // red: u32 = 255
        0xFF, 0x00, 0x00, 0x00, // blue: u32 = 255
        0xFF, 0x00, 0x00, 0x00, // green: u32 = 255
        0x50, 0x00, 0x00, 0x00, 0x00, 0x00, 0x00, 0x00, // character_id_ptr: u64 = 80
        0x03, 0x00, 0x00, 0x00, // costume_index: u32 = 3
        0x40, 0x00, 0x00, 0x00, // red: u32 = 64
        0x52, 0x00, 0x00, 0x00, // blue: u32 = 82
        0xC5, 0x00, 0x00, 0x00, // green: u32 = 197
        0x40, 0x00, 0x00, 0x00, 0x00, 0x00, 0x00, 0x00, // character_id_ptr: u64 = 64
        0x03, 0x00, 0x00, 0x00, // costume_index: u32 = 3
        0x8F, 0x00, 0x00, 0x00, // red: u32 = 143
        0xF6, 0x00, 0x00, 0x00, // blue: u32 = 246
        0x48, 0x00, 0x00, 0x00, // green: u32 = 72
        0x30, 0x00, 0x00, 0x00, 0x00, 0x00, 0x00, 0x00, // character_id_ptr: u64 = 48
        0x00, 0x00, 0x00, 0x00, // costume_index: u32 = 0
        0x00, 0x00, 0x00, 0x00, // red: u32 = 0
        0x00, 0x00, 0x00, 0x00, // blue: u32 = 0
        0x00, 0x00, 0x00, 0x00, // green: u32 = 0
        0x31, 0x6A, 0x6E, 0x74, 0x30, 0x31, 0x00, 0x00, // character_id = "1jnt01"
        0x31, 0x6A, 0x6E, 0x74, 0x30, 0x31, 0x00, 0x00, // character_id = "1jnt01"
        0x31, 0x6A, 0x6E, 0x74, 0x30, 0x31, 0x00, 0x00, // character_id = "1jnt01"
        0x32, 0x6A, 0x73, 0x70, 0x30, 0x31, 0x00, 0x00, // character_id = "2jsp01"
    ];
    assert_eq!(binary_data, expected_output);
}

#[test]
fn narrowing_keeps_low_byte() {
    let data = vec![
        0xE8, 0x03, 0x00, 0x00, // version: u32 = 1000
        0x01, 0x00, 0x00, 0x00, // entry_count: u32 = 1
        0x08, 0x00, 0x00, 0x00, 0x00, 0x00, 0x00, 0x00, // data_offset: u64 = 8
        0x18, 0x00, 0x00, 0x00, 0x00, 0x00, 0x00, 0x00, // character_id_ptr: u64 = 24
        0x00, 0x00, 0x00, 0x00, // costume_index: u32 = 0
        0x43, 0x01, 0x00, 0x00, // red: u32 = 0x143
        0x00, 0x00, 0x00, 0x00, // blue: u32 = 0
        0x00, 0x00, 0x00, 0x00, // green: u32 = 0
        0x31, 0x6A, 0x6E, 0x74, 0x30, 0x31, 0x00, 0x00, // character_id = "1jnt01"
    ];

    let result = from_binary_data(&data).unwrap();
    let key = EntryKey {
        character_id: "1jnt01".to_string(),
        costume_index: 0,
        alt_index: 0,
    };
    assert_eq!(
        result.get(&key).unwrap(),
        RGB { red: 0x43, green: 0, blue: 0 }
    );
}

#[test]
fn empty_table_round_trip() {
    let param = PlayerColorParam::new();
    let bytes = to_binary_data(&param);
    assert_eq!(bytes.len(), 16);
    let back = from_binary_data(&bytes).unwrap();
    assert_eq!(back.len(), 0);
}

#[test]
fn four_entry_round_trip() {
    let mut param = PlayerColorParam::new();
    param.insert(
        EntryKey {
            character_id: "2jsp01".to_string(),
            costume_index: 0,
            alt_index: 0,
        },
        RGB { red: 1, green: 2, blue: 3 },
    );
    param.insert(
        EntryKey {
            character_id: "1jnt01".to_string(),
            costume_index: 3,
            alt_index: 1,
        },
        RGB { red: 143, green: 246, blue: 72 },
    );
    param.insert(
        EntryKey {
            character_id: "1jnt01".to_string(),
            costume_index: 3,
            alt_index: 0,
        },
        RGB { red: 64, green: 82, blue: 197 },
    );
    param.insert(
        EntryKey {
            character_id: "1jnt01".to_string(),
            costume_index: 2,
            alt_index: 0,
        },
        RGB { red: 255, green: 255, blue: 255 },
    );

    let bytes = to_binary_data(&param);
    assert_eq!(bytes.len(), 16 + 4 * 32);
    let back = from_binary_data(&bytes).unwrap();
    assert_eq!(back.len(), 4);

    let cases = [
        ("2jsp01", 0u8, 0u8, RGB { red: 1, green: 2, blue: 3 }),
        ("1jnt01", 3, 1, RGB { red: 143, green: 246, blue: 72 }),
        ("1jnt01", 3, 0, RGB { red: 64, green: 82, blue: 197 }),
        ("1jnt01", 2, 0, RGB { red: 255, green: 255, blue: 255 }),
    ];
    for (id, costume, alt, color) in cases {
        let key = EntryKey {
            character_id: id.to_string(),
            costume_index: costume,
            alt_index: alt,
        };
        assert_eq!(back.get(&key).unwrap(), color);
    }
}

#[test]
fn encode_is_order_independent() {
    let entries = [
        ("1jnt01", 3u8, 0u8, RGB { red: 64, green: 82, blue: 197 }),
        ("1jnt01", 3, 1, RGB { red: 143, green: 246, blue: 72 }),
        ("2jsp01", 0, 0, RGB { red: 0, green: 0, blue: 0 }),
    ];

    let mut forward = PlayerColorParam::new();
    for (id, costume, alt, color) in entries {
        let key = EntryKey {
            character_id: id.to_string(),
            costume_index: costume,
            alt_index: alt,
        };
        forward.insert(key, color);
    }

    let mut backward = PlayerColorParam::new();
    for (id, costume, alt, color) in entries.into_iter().rev() {
        let key = EntryKey {
            character_id: id.to_string(),
            costume_index: costume,
            alt_index: alt,
        };
        backward.insert(key, color);
    }

    assert_eq!(to_binary_data(&forward), to_binary_data(&backward));
    assert_eq!(to_binary_data(&forward), to_binary_data(&forward));
}

#[test]
fn truncated_header_is_out_of_bounds() {
    let data = vec![0xE8, 0x03, 0x00, 0x00, 0x01, 0x00, 0x00, 0x00];
    assert_eq!(from_binary_data(&data).unwrap_err(), CodecError::OutOfBounds);
}

#[test]
fn truncated_entry_is_out_of_bounds() {
    let data = vec![
        0xE8, 0x03, 0x00, 0x00, // version
        0x01, 0x00, 0x00, 0x00, // one entry promised
        0x08, 0x00, 0x00, 0x00, 0x00, 0x00, 0x00, 0x00, // data_offset: u64 = 8
    ];
    assert_eq!(from_binary_data(&data).unwrap_err(), CodecError::OutOfBounds);
}

#[test]
fn string_pointer_past_end_is_out_of_bounds() {
    let data = vec![
        0xE8, 0x03, 0x00, 0x00, // version
        0x01, 0x00, 0x00, 0x00, // entry_count: u32 = 1
        0x08, 0x00, 0x00, 0x00, 0x00, 0x00, 0x00, 0x00, // data_offset: u64 = 8
        0xFF, 0x00, 0x00, 0x00, 0x00, 0x00, 0x00, 0x00, // pointer far past the end
        0x00, 0x00, 0x00, 0x00, // costume_index
        0x00, 0x00, 0x00, 0x00, // red
        0x00, 0x00, 0x00, 0x00, // blue
        0x00, 0x00, 0x00, 0x00, // green
    ];
    assert_eq!(from_binary_data(&data).unwrap_err(), CodecError::OutOfBounds);
}

#[test]
fn invalid_string_bytes_are_rejected() {
    let data = vec![
        0xE8, 0x03, 0x00, 0x00, // version
        0x01, 0x00, 0x00, 0x00, // entry_count: u32 = 1
        0x08, 0x00, 0x00, 0x00, 0x00, 0x00, 0x00, 0x00, // data_offset: u64 = 8
        0x18, 0x00, 0x00, 0x00, 0x00, 0x00, 0x00, 0x00, // character_id_ptr: u64 = 24
        0x00, 0x00, 0x00, 0x00, // costume_index
        0x00, 0x00, 0x00, 0x00, // red
        0x00, 0x00, 0x00, 0x00, // blue
        0x00, 0x00, 0x00, 0x00, // green
        0xFF, 0xFE, 0x00, 0x00, // not valid UTF-8, then the terminator
    ];
    assert_eq!(
        from_binary_data(&data).unwrap_err(),
        CodecError::InvalidStringEncoding
    );
}

#[test]
fn read_cstring_stops_at_terminator() {
    let data = vec![b'h', b'i', 0, b'x'];
    assert_eq!(read_cstring(&data, 0).unwrap(), "hi");
    assert_eq!(read_cstring(&data, 1).unwrap(), "i");
}

#[test]
fn read_cstring_without_terminator_fails() {
    let data = vec![b'h', b'i'];
    assert_eq!(read_cstring(&data, 0).unwrap_err(), CodecError::OutOfBounds);
    assert_eq!(read_cstring(&data, 7).unwrap_err(), CodecError::OutOfBounds);
}

#[test]
fn read_cstring_rejects_invalid_utf8() {
    let data = vec![0xFF, 0xFE, 0];
    assert_eq!(
        read_cstring(&data, 0).unwrap_err(),
        CodecError::InvalidStringEncoding
    );
}
