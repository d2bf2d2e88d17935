use openlr2::assemble::{
    chart_lane_count, count_notes, is_grid_before, lane_notes, resolve_keymode, sort_notes,
    sorted_lane_notes,
};
use openlr2::document::{BmsDocument, LaneObject, Number, Position, TempoKind};
use openlr2::{scan_bms, KeyMode, OpenLr2Error};

fn read(text: &str) -> BmsDocument {
    scan_bms(text).expect("defined input").expect("valid chart")
}

fn read_err(text: &str) -> String {
    match scan_bms(text) {
        Some(Err(OpenLr2Error::BmsParse(m))) => m,
        other => panic!("expected a parse error, got {:?}", other),
    }
}

fn pos(measure: u32, index: usize, resolution: usize) -> Position {
    Position { measure, index, resolution }
}

fn text_of(n: &Number) -> &str {
    match n {
        Number::Text(s) => s.as_str(),
        Number::Whole(_) => panic!("expected a literal"),
    }
}

#[test]
fn minimal_chart_headers_and_notes() {
    let d = read("#TITLE test\n#PLAYER 1\n#GENRE test\n#BPM 150\n#00111:01010101\n");
    assert_eq!(d.title, "test");
    assert_eq!(d.genre, "test");
    assert_eq!(d.keymode, Some(7));
    assert_eq!(resolve_keymode(d.keymode), KeyMode::Keys7);
    assert_eq!(d.header_bpms.len(), 1);
    assert_eq!(d.header_bpms[0].index, None);
    assert_eq!(d.header_bpms[0].value, "150");
    assert_eq!(d.notes.len(), 4);
    for (i, n) in d.notes.iter().enumerate() {
        assert_eq!(*n, LaneObject { lane: 0, position: pos(1, i, 4), keysound_id: Some(1) });
    }
    assert_eq!(count_notes(&d.notes, chart_lane_count(KeyMode::Keys7)), 4);
}

#[test]
fn later_measure_positions() {
    let d = read("#BPM 120\n#00211:01\n");
    assert_eq!(d.notes[0].position, pos(2, 0, 1));
}

#[test]
fn indexed_bpm_and_stop_definitions() {
    let d = read("#BPM 120\n#BPM01 180\n#STOP01 192\n#00108:01\n#00109:01\n");
    assert_eq!(d.bpm_table.get(&1).map(|s| s.as_str()), Some("180"));
    assert_eq!(d.stop_table.get(&1).map(|s| s.as_str()), Some("192"));
    assert_eq!(d.header_bpms.len(), 2);
    assert_eq!(d.header_bpms[1].index, Some(1));
    assert_eq!(d.tempo_events.len(), 2);
    assert_eq!(d.tempo_events[0].position, pos(1, 0, 1));
    match &d.tempo_events[0].kind {
        TempoKind::Bpm(n) => assert_eq!(text_of(n), "180"),
        other => panic!("unexpected {:?}", other),
    }
    match &d.tempo_events[1].kind {
        TempoKind::Stop(n) => assert_eq!(text_of(n), "192"),
        other => panic!("unexpected {:?}", other),
    }
}

#[test]
fn note_after_stop_keeps_its_slot() {
    let d = read("#BPM 120\n#STOP01 192\n#00109:01\n#00111:0001\n");
    assert_eq!(d.notes.len(), 1);
    assert_eq!(d.notes[0].position, pos(1, 1, 2));
    assert_eq!(d.tempo_events[0].position, pos(1, 0, 1));
}

#[test]
fn keysounds_are_base62() {
    let d = read("#BPM 120\n#WAV10 kick.wav\n#WAVG0 clap.wav\n#00111:10G0\n");
    assert_eq!(d.notes[0].keysound_id, Some(62));
    assert_eq!(d.notes[1].keysound_id, Some(992));
    assert_eq!(d.resources.wav.get(&62).unwrap().path, "kick.wav");
    assert_eq!(d.resources.wav.get(&62).unwrap().index, 62);
    assert_eq!(d.resources.wav.get(&992).unwrap().path, "clap.wav");
}

#[test]
fn measure_length_objects() {
    let d = read("#BPM 120\n#00102:0.5\n#00111:01\n#00211:01\n");
    assert_eq!(d.measure_lengths.len(), 1);
    assert_eq!(d.measure_lengths[0].measure, 1);
    assert_eq!(d.measure_lengths[0].ratio, "0.5");
    assert_eq!(d.notes[0].position, pos(1, 0, 1));
    assert_eq!(d.notes[1].position, pos(2, 0, 1));
}

#[test]
fn measure_length_must_be_a_decimal_literal() {
    let d = read("#00102:half\n#00202: 1e-1 \n");
    assert_eq!(d.measure_lengths.len(), 1);
    assert_eq!(d.measure_lengths[0].ratio, "1e-1");
}

#[test]
fn keymode_from_player_header() {
    assert_eq!(resolve_keymode(read("#PLAYER 5\n#BPM 120\n").keymode), KeyMode::Keys5);
    assert_eq!(resolve_keymode(read("#PLAYER 3\n#BPM 120\n").keymode), KeyMode::Keys9);
    assert_eq!(resolve_keymode(read("#PLAYER 2\n#BPM 120\n").keymode), KeyMode::Keys14);
    assert_eq!(resolve_keymode(read("#PLAYER x\n").keymode), KeyMode::Keys7);
    assert_eq!(resolve_keymode(read("#BPM 120\n").keymode), KeyMode::Keys7);
}

#[test]
fn resource_index_errors() {
    assert_eq!(read_err("#WAV!! a.wav\n"), "invalid resource index: !!");
    // without whitespace the line declares nothing
    assert_eq!(read("#WAV01\n").resources.wav.len(), 0);
    let d = read("#BMP01   back ground.png  \n");
    assert_eq!(d.resources.bmp.get(&1).unwrap().path, "back ground.png");
}

#[test]
fn stop_definition_errors() {
    assert_eq!(read_err("#STOP01 abc\n"), "invalid indexed value: abc");
    assert_eq!(read_err("#STOP01\n"), "missing indexed value");
    assert_eq!(read_err("#STOP 10\n"), "missing indexed value");
    assert_eq!(read_err("#STOPzz 10\n"), "invalid indexed key: zz");
    assert_eq!(read_err("#STOP01-\n"), "invalid indexed value: -");
}

#[test]
fn bpm_definition_falls_back_to_initial_tempo() {
    let d = read("#BPM 145.5 extra\n#BPMzz 10\n#BPM abc\n#BPM150\n");
    let values: Vec<&str> = d.header_bpms.iter().map(|h| h.value.as_str()).collect();
    assert_eq!(values, vec!["145.5", "150"]);
    assert!(d.header_bpms.iter().all(|h| h.index.is_none()));
    assert_eq!(d.bpm_table.len(), 0);
}

#[test]
fn channel_line_errors() {
    assert_eq!(read_err("#RANK 2\n"), "invalid measure: RAN");
    assert_eq!(read_err("#001!!:01\n"), "invalid channel: !!");
    // header errors come before channel errors
    assert_eq!(read_err("#RANK 2\n#WAV?? a.wav\n"), "invalid resource index: ??");
}

#[test]
fn undefined_inputs() {
    let long = format!("#WAV{} a.wav\n", "Z".repeat(20));
    assert!(scan_bms(&long).is_none());
}

#[test]
fn channel_field_inside_a_character_is_an_error() {
    assert_eq!(read_err("#00é1234:01\n"), "invalid channel line: #00é1234:01");
    assert_eq!(read_err("#\u{3042}\u{3042}\n"), "invalid channel line: #\u{3042}\u{3042}");
}

#[test]
fn failing_stop_definition_is_an_error() {
    assert_eq!(read_err("#STOP01\n"), "missing indexed value");
}

#[test]
fn lanes_in_grid_order() {
    let d = read("#00211:01\n#00111:0002\n#00111:03\n#00111:000400\n#00111:0500\n");
    let keys: Vec<Option<usize>> =
        sorted_lane_notes(&d.notes, 0).iter().map(|n| n.keysound_id).collect();
    // measure 1 at 0/1 (03), 0/2 (05, same place, later in the file),
    // 1/3 (04), 1/2 (02); then measure 2 (01)
    assert_eq!(keys, vec![Some(3), Some(5), Some(4), Some(2), Some(1)]);
}

#[test]
fn grid_order_compares_fractions() {
    assert!(is_grid_before(pos(1, 1, 3), pos(1, 1, 2)));
    assert!(!is_grid_before(pos(1, 1, 2), pos(1, 2, 4)));
    assert!(!is_grid_before(pos(1, 2, 4), pos(1, 1, 2)));
    assert!(is_grid_before(pos(0, 3, 4), pos(1, 0, 1)));
    let big = usize::MAX;
    assert!(is_grid_before(pos(1, big - 1, big), pos(1, 1, 1)));
    let notes = vec![
        LaneObject { lane: 0, position: pos(2, 0, 1), keysound_id: Some(1) },
        LaneObject { lane: 0, position: pos(1, 1, 2), keysound_id: Some(2) },
        LaneObject { lane: 0, position: pos(1, 2, 4), keysound_id: Some(3) },
    ];
    let keys: Vec<Option<usize>> = sort_notes(&notes).iter().map(|n| n.keysound_id).collect();
    assert_eq!(keys, vec![Some(2), Some(3), Some(1)]);
}

#[test]
fn stop_milliseconds_header() {
    let d = read("#STP 500\n#STP01 250\n#STP x\n#STP\n");
    assert_eq!(d.header_stops, vec!["500".to_string(), "250".to_string()]);
}

#[test]
fn object_cells() {
    let d = read("#00103:FF00\n#00109:0a\n#00111:é1\n#00111:0\n");
    assert_eq!(d.tempo_events.len(), 2);
    assert!(matches!(d.tempo_events[0].kind, TempoKind::Bpm(Number::Whole(255))));
    assert_eq!(d.tempo_events[0].position, pos(1, 0, 2));
    assert!(matches!(d.tempo_events[1].kind, TempoKind::Stop(Number::Whole(10))));
    assert_eq!(d.notes.len(), 1);
    assert_eq!(d.notes[0].keysound_id, None);
}

#[test]
fn line_endings_and_comments() {
    let d = read("garbage\r\n  #TITLE  x y \r\n#ABC\r\n\r\n*comment\n#ARTIST me");
    assert_eq!(d.title, "x y");
    assert_eq!(d.artist, "me");
}

#[test]
fn lanes_group_notes_in_file_order() {
    let d = read("#00112:0102\n#00111:03\n#00112:04\n#00121:05\n");
    let l1 = lane_notes(&d.notes, 1);
    let keys: Vec<Option<usize>> = l1.iter().map(|n| n.keysound_id).collect();
    assert_eq!(keys, vec![Some(1), Some(2), Some(4)]);
    assert_eq!(lane_notes(&d.notes, 7).len(), 1);
    assert_eq!(count_notes(&d.notes, 7), 4);
    assert_eq!(count_notes(&d.notes, 14), 5);
}
