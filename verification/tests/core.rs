use openlr2::encoding::{cp932_to_utf8, utf8_to_cp932};
use openlr2::{BmsParseOptions, FontId, KeyMode, OpenLr2Error, SoundId, TextureId};

#[test]
fn keymode_lane_counts() {
    assert_eq!(KeyMode::Keys5.lanes_per_player(), 5);
    assert_eq!(KeyMode::Keys7.lanes_per_player(), 7);
    assert_eq!(KeyMode::Keys9.lanes_per_player(), 9);
    assert_eq!(KeyMode::Keys10.lanes_per_player(), 5);
    assert_eq!(KeyMode::Keys14.lanes_per_player(), 7);
    assert_eq!(KeyMode::Keys10.total_lanes(), 10);
    assert_eq!(KeyMode::Keys14.total_lanes(), 14);
    assert!(KeyMode::Keys14.is_double_play());
    assert!(!KeyMode::Keys9.is_double_play());
}

#[test]
fn total_lanes_is_sides_times_players() {
    for k in [KeyMode::Keys5, KeyMode::Keys7, KeyMode::Keys9, KeyMode::Keys10, KeyMode::Keys14] {
        let sides = if k.is_double_play() { 2 } else { 1 };
        assert_eq!(k.total_lanes(), k.lanes_per_player() * sides);
    }
}

#[test]
fn keymode_from_number() {
    assert_eq!(KeyMode::try_from(5).unwrap(), KeyMode::Keys5);
    assert_eq!(KeyMode::try_from(7).unwrap(), KeyMode::Keys7);
    assert_eq!(KeyMode::try_from(9).unwrap(), KeyMode::Keys9);
    assert_eq!(KeyMode::try_from(10).unwrap(), KeyMode::Keys10);
    assert_eq!(KeyMode::try_from(14).unwrap(), KeyMode::Keys14);
    match KeyMode::try_from(8) {
        Err(OpenLr2Error::BmsParse(m)) => assert_eq!(m, "unsupported keymode: 8"),
        other => panic!("unexpected {:?}", other),
    }
    match KeyMode::try_from(4294967295) {
        Err(OpenLr2Error::BmsParse(m)) => assert_eq!(m, "unsupported keymode: 4294967295"),
        other => panic!("unexpected {:?}", other),
    }
}

#[test]
fn keymode_numbers() {
    for (k, n) in [
        (KeyMode::Keys5, 5u32),
        (KeyMode::Keys7, 7),
        (KeyMode::Keys9, 9),
        (KeyMode::Keys10, 10),
        (KeyMode::Keys14, 14),
    ] {
        assert_eq!(k.number(), n);
        assert_eq!(KeyMode::try_from(k.number()).unwrap(), k);
    }
}

#[test]
fn utf8_roundtrip() {
    let text = "#TITLE 夜空 ☆ test";
    let bytes = utf8_to_cp932(text).unwrap();
    assert_eq!(bytes, text.as_bytes());
    assert_eq!(cp932_to_utf8(&bytes).unwrap(), text);
}

#[test]
fn invalid_utf8_is_an_encoding_error() {
    match cp932_to_utf8(&[0x82, 0xa0]) {
        Err(OpenLr2Error::Encoding(m)) => {
            assert_eq!(m, "invalid utf-8: invalid utf-8 sequence of 1 bytes from index 0")
        }
        other => panic!("unexpected {:?}", other),
    }
    match cp932_to_utf8(&[b'a', 0xe3, 0x81]) {
        Err(OpenLr2Error::Encoding(m)) => {
            assert_eq!(m, "invalid utf-8: incomplete utf-8 byte sequence from index 1")
        }
        other => panic!("unexpected {:?}", other),
    }
}

#[test]
fn default_parse_options() {
    let o = BmsParseOptions::default();
    assert!(o.try_cp932);
    assert!(!o.parse_bga);
    assert_eq!(o.scratch_side, 2);
}

#[test]
fn resource_handles_compare_by_value() {
    assert_eq!(TextureId(3), TextureId(3));
    assert_ne!(SoundId(1), SoundId(2));
    assert_eq!(FontId(0), FontId(0));
}
