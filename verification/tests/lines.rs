use openlr2::utf8len::{byte_len_at_least, char_index_at};
use openlr2::document::BmsDocument;
use openlr2::{
    parse_channel_parts, parse_indexed_value, parse_resource_line, scan_bms, OpenLr2Error,
    ResourceRef,
};
use std::collections::HashMap;

#[test]
fn resource_line_declares_and_overrides() {
    let mut t: HashMap<usize, ResourceRef> = HashMap::new();
    parse_resource_line("01 kick.wav", &mut t, 62).unwrap();
    parse_resource_line("0z  snare 2.wav ", &mut t, 62).unwrap();
    parse_resource_line("01 kick2.wav", &mut t, 62).unwrap();
    parse_resource_line("02", &mut t, 62).unwrap();
    assert_eq!(t.len(), 2);
    assert_eq!(t[&1].path, "kick2.wav");
    assert_eq!(t[&61].path, "snare 2.wav");
    assert_eq!(t[&61].index, 61);
    match parse_resource_line("0z a.wav", &mut t, 36) {
        Err(OpenLr2Error::BmsParse(m)) => assert_eq!(m, "invalid resource index: 0z"),
        other => panic!("unexpected {:?}", other),
    }
    assert_eq!(t.len(), 2);
}

#[test]
fn failing_resource_line_keeps_the_table() {
    let mut t: HashMap<usize, ResourceRef> = HashMap::new();
    parse_resource_line("G0 clap.wav", &mut t, 62).unwrap();
    assert_eq!(t.len(), 1);
    assert_eq!(t[&992].path, "clap.wav");
    match parse_resource_line("!! b.wav", &mut t, 62) {
        Err(OpenLr2Error::BmsParse(m)) => assert_eq!(m, "invalid resource index: !!"),
        other => panic!("unexpected {:?}", other),
    }
    assert_eq!(t.len(), 1);
    assert_eq!(t[&992].index, 992);
    assert_eq!(t[&992].path, "clap.wav");
}

#[test]
fn indexed_values() {
    assert_eq!(parse_indexed_value("01 180", 36).unwrap(), (1, "180".to_string()));
    assert_eq!(parse_indexed_value("ZZ\t-2.5e3 ", 36).unwrap(), (1295, "-2.5e3".to_string()));
    assert_eq!(parse_indexed_value("AA INF", 36).unwrap(), (370, "INF".to_string()));
    for (text, msg) in [
        (" 180", "missing indexed value"),
        ("01", "missing indexed value"),
        ("01 ", "missing value for index 01"),
        ("01: ", "invalid indexed value: :"),
        ("aa 1", "invalid indexed key: aa"),
        ("01 1.2.3", "invalid indexed value: 1.2.3"),
        ("01 .", "invalid indexed value: ."),
        ("01 1e", "invalid indexed value: 1e"),
    ] {
        match parse_indexed_value(text, 36) {
            Err(OpenLr2Error::BmsParse(m)) => assert_eq!(m, msg, "for {:?}", text),
            other => panic!("unexpected {:?} for {:?}", other, text),
        }
    }
}

#[test]
fn channel_parts() {
    assert_eq!(parse_channel_parts("#00111:0101").unwrap(), Some((1, 11, "0101")));
    assert_eq!(parse_channel_parts("#99903 x:FF").unwrap(), Some((999, 3, "FF")));
    assert_eq!(parse_channel_parts("#0011Z:01").unwrap(), Some((1, 71, "01")));
    assert_eq!(parse_channel_parts("#00111").unwrap(), None);
    assert_eq!(parse_channel_parts("#00111 no colon").unwrap(), None);
    match parse_channel_parts("#0\u{3042}12:01") {
        Err(OpenLr2Error::BmsParse(m)) => assert_eq!(m, "invalid channel line: #0\u{3042}12:01"),
        other => panic!("unexpected {:?}", other),
    }
    match parse_channel_parts("#TITLE x") {
        Err(OpenLr2Error::BmsParse(m)) => assert_eq!(m, "invalid measure: TIT"),
        other => panic!("unexpected {:?}", other),
    }
}

fn doc(text: &str) -> BmsDocument {
    scan_bms(text).unwrap().unwrap()
}

fn summary(d: &BmsDocument) -> String {
    let mut wav: Vec<(usize, String)> =
        d.resources.wav.iter().map(|(k, v)| (*k, v.path.clone())).collect();
    wav.sort();
    let mut bpm: Vec<(usize, String)> =
        d.bpm_table.iter().map(|(k, v)| (*k, v.clone())).collect();
    bpm.sort();
    format!(
        "{:?}|{:?}|{:?}|{:?}|{:?}|{:?}|{:?}|{:?}|{:?}",
        d.title, d.keymode, wav, bpm, d.header_bpms, d.header_stops, d.measure_lengths,
        d.tempo_events, d.notes
    )
}

#[test]
fn crlf_reads_like_lf() {
    let lf = "#TITLE a\n#PLAYER 3\n#WAV01 x.wav\n#BPM01 150\n#BPM 120\n#00102:0.75\n#00108:0001\n#00111:01\n";
    let crlf = lf.replace('\n', "\r\n");
    assert_eq!(summary(&doc(lf)), summary(&doc(&crlf)));
    let mixed = "#TITLE a\r\n#PLAYER 3\n#WAV01 x.wav\r\n#BPM01 150\n#BPM 120\n#00102:0.75\r\n#00108:0001\n#00111:01\r\n";
    assert_eq!(summary(&doc(lf)), summary(&doc(mixed)));
}

#[test]
fn comment_lines_change_nothing() {
    let base = "#TITLE a\n#00111:01\n";
    let with_comments = "; comment\n#TITLE a\n   \n*---\n#00111:01\nend\n";
    assert_eq!(summary(&doc(base)), summary(&doc(with_comments)));
    // a comment line after an unterminated last line
    let unterminated = "#TITLE a\n#00111:01";
    let after = "#TITLE a\n#00111:01\n; trailing comment";
    assert_eq!(summary(&doc(unterminated)), summary(&doc(after)));
}

#[test]
fn byte_offsets_of_characters() {
    let s: Vec<char> = "a\u{3042}b".chars().collect();
    assert!(byte_len_at_least(&s, 5));
    assert!(!byte_len_at_least(&s, 6));
    assert!(!byte_len_at_least(&s, usize::MAX));
    assert_eq!(char_index_at(&s, 4), Some(2));
    assert_eq!(char_index_at(&s, 2), None);
    assert_eq!(char_index_at(&s, usize::MAX), None);
}
