use sugar_wifi_conf::uuid::{
    custom_uuid, custom_uuid_str, guid4, is_uuid_text, parse_uuid, CUSTOM_COMMAND_LABEL_PREFIX,
    CUSTOM_INFO_COUNT, CUSTOM_INFO_LABEL_PREFIX, CUSTOM_INFO_PREFIX, SERVICE_ID, SSH_USERNAME,
};

#[test]
fn test_parse_full_uuid() {
    let uuid = parse_uuid(SERVICE_ID);
    assert_eq!(uuid.to_string(), "fd2b4448-aa0f-4a15-a62f-eb0be77a0000");
}

#[test]
fn test_parse_short_uuid() {
    // 12-char UUID gets left-padded with zeros
    let uuid = parse_uuid("FD2BCCCA0001");
    assert_eq!(uuid.to_string(), "00000000-0000-0000-0000-fd2bccca0001");
}

#[test]
fn test_guid4() {
    assert_eq!(guid4(0), "0001");
    assert_eq!(guid4(1), "0002");
    assert_eq!(guid4(15), "0010");
    assert_eq!(guid4(255), "0100");
}

#[test]
fn test_custom_uuid() {
    let uuid = custom_uuid("FD2BCCCA", 0);
    assert_eq!(uuid.to_string(), "00000000-0000-0000-0000-fd2bccca0001");
}

#[test]
fn guid4_past_four_digits_is_not_cut() {
    assert_eq!(guid4(65535), "10000");
    assert_eq!(guid4(0xabc), "0abd");
}

#[test]
fn custom_uuid_str_joins_prefix_and_suffix() {
    assert_eq!(custom_uuid_str(CUSTOM_COMMAND_LABEL_PREFIX, "0003"), "FD2BCCCC0003");
}

#[test]
fn parse_uuid_bytes_are_big_endian() {
    let uuid = parse_uuid(SSH_USERNAME);
    assert_eq!(uuid.bytes[0], 0xfd);
    assert_eq!(uuid.bytes[15], 0x0d);
    assert_eq!(uuid.to_string(), "fd2b4448-aa0f-4a15-a62f-eb0be77a000d");
    let count = parse_uuid(CUSTOM_INFO_COUNT);
    assert_eq!(count.to_string(), "00000000-0000-0000-0000-fd2bccaa0000");
}

#[test]
fn parse_uuid_accepts_lower_case_and_long_text() {
    let lower = parse_uuid("fd2b4448aa0f4a15a62feb0be77a0000");
    assert_eq!(lower, parse_uuid(SERVICE_ID));
    let long = parse_uuid("FD2B4448AA0F4A15A62FEB0BE77A0000XYZ");
    assert_eq!(long, parse_uuid(SERVICE_ID));
}

#[test]
fn uuid_text_check() {
    assert!(is_uuid_text("FD2BCCCA0001"));
    assert!(is_uuid_text(SERVICE_ID));
    assert!(!is_uuid_text("FD2BCCCG0001"));
    assert!(!is_uuid_text("FD2B4448AA0F4A15A62FEB0BE77A00-0"));
    assert!(is_uuid_text(""));
}

#[test]
fn info_label_and_value_uuids_share_their_suffix() {
    for i in [0usize, 1, 9, 17, 300].iter() {
        let label = custom_uuid(CUSTOM_INFO_LABEL_PREFIX, *i).to_string();
        let value = custom_uuid(CUSTOM_INFO_PREFIX, *i).to_string();
        assert_eq!(&label[..31], "00000000-0000-0000-0000-fd2bccc");
        assert_eq!(&label[31..32], "a");
        assert_eq!(&value[31..32], "b");
        assert_eq!(&label[32..], &value[32..]);
        assert_eq!(&label[32..], guid4(*i));
    }
}

#[test]
fn info_value_uuid_is_label_plus_one_in_byte_13() {
    for i in [0usize, 4, 255, 4095, 65534].iter() {
        let label = custom_uuid(CUSTOM_INFO_LABEL_PREFIX, *i).bytes;
        let value = custom_uuid(CUSTOM_INFO_PREFIX, *i).bytes;
        for j in 0..16 {
            if j == 13 {
                assert_eq!(value[j], label[j] + 1);
            } else {
                assert_eq!(value[j], label[j]);
            }
        }
    }
}

#[test]
fn custom_uuid_is_prefix_shifted_plus_index() {
    for prefix in [CUSTOM_INFO_LABEL_PREFIX, CUSTOM_INFO_PREFIX, CUSTOM_COMMAND_LABEL_PREFIX].iter() {
        let base = u128::from_str_radix(prefix, 16).unwrap() << 16;
        let mut seen = Vec::new();
        for i in [0usize, 1, 2, 15, 16, 255, 4096, 65534].iter() {
            let v = u128::from_be_bytes(custom_uuid(prefix, *i).bytes);
            assert_eq!(v, base | (*i as u128 + 1));
            assert!(!seen.contains(&v));
            seen.push(v);
        }
    }
}
