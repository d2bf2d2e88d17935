use openlr2::{base_decode, channel_to_lane, parse_channel_code, player_to_keymode};

#[test]
fn base36_decode() {
    assert_eq!(base_decode("01", 36), Some(1));
    assert_eq!(base_decode("0Z", 36), Some(35));
    assert_eq!(base_decode("10", 36), Some(36));
    assert_eq!(base_decode("zz", 62), Some(3843));
    assert_eq!(base_decode("10", 62), Some(62));
}

#[test]
fn channel_to_lane_7k() {
    assert_eq!(parse_channel_code("11"), Some(11));
    assert_eq!(channel_to_lane(11), Some(0));
    assert_eq!(channel_to_lane(15), Some(4));
    assert_eq!(channel_to_lane(17), Some(6));
    assert_eq!(channel_to_lane(18), Some(0));
    assert_eq!(channel_to_lane(1), None);
}

#[test]
fn base_decode_rejects_digits_outside_the_base() {
    assert_eq!(base_decode("0a", 36), None);
    assert_eq!(base_decode("G0", 16), None);
    assert_eq!(base_decode("-1", 62), None);
    assert_eq!(base_decode("", 36), Some(0));
    assert_eq!(base_decode("G0", 62), Some(992));
}

#[test]
fn base_decode_is_positional() {
    // decoding one more digit multiplies by the base and adds the digit
    let v = base_decode("1Z", 36).unwrap();
    assert_eq!(base_decode("1Z7", 36), Some(v * 36 + 7));
}

#[test]
fn channel_codes_decimal_and_base36() {
    assert_eq!(parse_channel_code("09"), Some(9));
    assert_eq!(parse_channel_code("1A"), Some(46));
    assert_eq!(parse_channel_code("1a"), None);
    assert_eq!(parse_channel_code(""), None);
}

#[test]
fn lanes_of_all_note_channels() {
    assert_eq!(channel_to_lane(16), Some(5));
    assert_eq!(channel_to_lane(19), Some(0));
    assert_eq!(channel_to_lane(21), Some(7));
    assert_eq!(channel_to_lane(27), Some(13));
    assert_eq!(channel_to_lane(28), Some(7));
    assert_eq!(channel_to_lane(29), Some(7));
    assert_eq!(channel_to_lane(51), Some(0));
    assert_eq!(channel_to_lane(57), Some(6));
    assert_eq!(channel_to_lane(58), Some(0));
    assert_eq!(channel_to_lane(20), None);
    assert_eq!(channel_to_lane(60), None);
    for ch in 0..200usize {
        if let Some(l) = channel_to_lane(ch) {
            assert!(l < 14);
        }
    }
}

#[test]
fn player_values_select_keymodes() {
    assert_eq!(player_to_keymode(1), 7);
    assert_eq!(player_to_keymode(2), 14);
    assert_eq!(player_to_keymode(3), 9);
    assert_eq!(player_to_keymode(4), 10);
    assert_eq!(player_to_keymode(5), 5);
    assert_eq!(player_to_keymode(0), 7);
    assert_eq!(player_to_keymode(99), 7);
}

#[test]
fn base_decode_appends_characters_positionally() {
    assert_eq!(base_decode("1", 36), Some(1));
    assert_eq!(base_decode("1Z", 36), Some(36 + 35));
    assert_eq!(base_decode("1!", 36), None);
    assert_eq!(base_decode("!1", 36), None);
    assert_eq!(base_decode("1z", 36), None);
    assert_eq!(base_decode("1z", 62), Some(62 + 61));
}
