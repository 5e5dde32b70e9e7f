use bms_player::chart::{sort_records, BMSDatum, ParseError, BMS};
use bms_player::text::parse_u16;

fn chart_lines(lines: &[&str]) -> Vec<String> {
    lines.iter().map(|l| l.to_string()).collect()
}

fn datum(measure: u16, channel: u8, message: Vec<u32>) -> BMSDatum {
    BMSDatum { measure, channel, message }
}

#[test]
fn message_is_read_in_pairs() {
    assert_eq!(BMS::parse_message("0001ZZ"), vec![0, 1, 1295]);
    assert_eq!(BMS::parse_message("0A10"), vec![10, 36]);
}

#[test]
fn message_stops_at_the_first_bad_pair() {
    assert_eq!(BMS::parse_message(""), Vec::<u32>::new());
    assert_eq!(BMS::parse_message("0"), Vec::<u32>::new());
    assert_eq!(BMS::parse_message("01x"), vec![1]);
    assert_eq!(BMS::parse_message("010a02"), vec![1]);
    assert_eq!(BMS::parse_message("01 02"), vec![1]);
}

#[test]
fn data_line_gives_measure_channel_and_codes() {
    let d = BMS::handle_data_line("01203:00010000").unwrap();
    assert_eq!(d.measure, 12);
    assert_eq!(d.channel, 3);
    assert_eq!(d.message, vec![0, 1, 0, 0]);
    let d = BMS::handle_data_line("99999:ZZ").unwrap();
    assert_eq!(d.measure, 999);
    assert_eq!(d.channel, 99);
    assert_eq!(d.message, vec![1295]);
}

#[test]
fn data_line_keeps_whole_pairs_only() {
    let d = BMS::handle_data_line("00001:0102x").unwrap();
    assert_eq!(d.message, vec![1, 2]);
    let d = BMS::handle_data_line("00001:010").unwrap();
    assert_eq!(d.message, vec![1]);
}

#[test]
fn data_line_must_start_the_line() {
    assert!(BMS::handle_data_line("#00101:0001").is_none());
    assert!(BMS::handle_data_line(" 00101:0001").is_none());
    assert!(BMS::handle_data_line("0011:0001").is_none());
    assert!(BMS::handle_data_line("00101-0001").is_none());
    assert!(BMS::handle_data_line("00101:").is_none());
    assert!(BMS::handle_data_line("00101:0").is_none());
    assert!(BMS::handle_data_line("00101:ab").is_none());
    assert!(BMS::handle_data_line("").is_none());
}

#[test]
fn sample_line_gives_id_and_name() {
    assert_eq!(BMS::handle_sample_line("#WAV01 kick.wav"), Some((1, "kick.wav".to_string())));
    assert_eq!(BMS::handle_sample_line("#WAVZZ a b.ogg"), Some((1295, "a b.ogg".to_string())));
    assert_eq!(BMS::handle_sample_line("#WAV10 "), Some((36, String::new())));
    assert_eq!(
        BMS::handle_sample_line("#WAV0A \u{30c9}\u{30e9}\u{30e0}.wav"),
        Some((10, "\u{30c9}\u{30e9}\u{30e0}.wav".to_string()))
    );
}

#[test]
fn sample_line_is_refused_when_malformed() {
    assert!(BMS::handle_sample_line("#WAV0 x.wav").is_none());
    assert!(BMS::handle_sample_line("#WAV01x.wav").is_none());
    assert!(BMS::handle_sample_line("#WAV0a x.wav").is_none());
    assert!(BMS::handle_sample_line("WAV01 x.wav").is_none());
    assert!(BMS::handle_sample_line("#WAV01").is_none());
    assert!(BMS::handle_sample_line("#BMP01 x.bmp").is_none());
}

#[test]
fn metadata_line_gives_key_and_value() {
    assert_eq!(
        BMS::handle_metadata_line("#BPM 120"),
        Some(("BPM".to_string(), "120".to_string()))
    );
    assert_eq!(
        BMS::handle_metadata_line("#TITLE My Song  "),
        Some(("TITLE".to_string(), "My Song  ".to_string()))
    );
    assert_eq!(BMS::handle_metadata_line("#A "), Some(("A".to_string(), String::new())));
    assert_eq!(
        BMS::handle_metadata_line("#WAVE x"),
        Some(("WAVE".to_string(), "x".to_string()))
    );
}

#[test]
fn metadata_line_is_refused_when_malformed() {
    assert!(BMS::handle_metadata_line("#bpm 120").is_none());
    assert!(BMS::handle_metadata_line("# 120").is_none());
    assert!(BMS::handle_metadata_line("#BPM").is_none());
    assert!(BMS::handle_metadata_line("#BPM1 120").is_none());
    assert!(BMS::handle_metadata_line("BPM 120").is_none());
    assert!(BMS::handle_metadata_line(" #BPM 120").is_none());
    assert!(BMS::handle_metadata_line("#WAV01 kick.wav").is_none());
    assert!(BMS::handle_metadata_line("").is_none());
}

#[test]
fn line_is_taken_as_data_then_sample_then_metadata() {
    let mut chart = BMS::empty();
    chart.handle_line("00102:0A");
    chart.handle_line("#WAV0A snare.wav");
    chart.handle_line("#WAVAB x.wav");
    chart.handle_line("#ARTIST someone");
    chart.handle_line("just a remark");
    chart.handle_line("");
    assert_eq!(chart.data.len(), 1);
    assert_eq!(chart.data[0].measure, 1);
    assert_eq!(chart.data[0].channel, 2);
    assert_eq!(chart.data[0].message, vec![10]);
    assert_eq!(chart.sample_name(10), Some(&"snare.wav".to_string()));
    assert_eq!(chart.sample_name(10 * 36 + 11), Some(&"x.wav".to_string()));
    assert_eq!(chart.sample_name(11), None);
    assert_eq!(chart.sample_name(5000), None);
    assert_eq!(chart.metadata, vec![("ARTIST".to_string(), "someone".to_string())]);
    assert_eq!(chart.bpm, 130);
}

#[test]
fn sample_defined_twice_keeps_the_later_name() {
    let mut chart = BMS::empty();
    chart.handle_line("#WAV01 a.wav");
    chart.handle_line("#WAV01 b.wav");
    assert_eq!(chart.sample_name(1), Some(&"b.wav".to_string()));
}

#[test]
fn metadata_given_twice_counts_the_later_value() {
    let chart = BMS::new(&chart_lines(&["#BPM 100", "#GENRE x", "#BPM 150"])).ok().unwrap();
    assert_eq!(chart.bpm, 150);
    assert_eq!(chart.metadata_value(&"BPM".to_string()), Some(&"150".to_string()));
    assert_eq!(chart.metadata_value(&"GENRE".to_string()), Some(&"x".to_string()));
    assert_eq!(chart.metadata_value(&"TITLE".to_string()), None);
    assert_eq!(chart.metadata.len(), 3);
}

#[test]
fn tempo_defaults_to_130() {
    let chart = BMS::new(&chart_lines(&["#TITLE t", "00001:01"])).ok().unwrap();
    assert_eq!(chart.bpm, 130);
    let chart = BMS::new(&Vec::new()).ok().unwrap();
    assert_eq!(chart.bpm, 130);
    assert!(chart.data.is_empty());
    assert!(chart.metadata.is_empty());
}

#[test]
fn tempo_is_read_from_the_metadata() {
    let chart = BMS::new(&chart_lines(&["#BPM 120"])).ok().unwrap();
    assert_eq!(chart.bpm, 120);
    let chart = BMS::new(&chart_lines(&["#BPM +0065535"])).ok().unwrap();
    assert_eq!(chart.bpm, 65535);
    let chart = BMS::new(&chart_lines(&["#BPM 0"])).ok().unwrap();
    assert_eq!(chart.bpm, 0);
}

#[test]
fn tempo_that_is_no_number_fails_the_chart() {
    assert_eq!(BMS::new(&chart_lines(&["#BPM abc"])).err(), Some(ParseError::BadTempo));
    assert_eq!(BMS::new(&chart_lines(&["#BPM "])).err(), Some(ParseError::BadTempo));
    assert_eq!(BMS::new(&chart_lines(&["#BPM 120.5"])).err(), Some(ParseError::BadTempo));
    assert_eq!(BMS::new(&chart_lines(&["#BPM -1"])).err(), Some(ParseError::BadTempo));
    assert_eq!(BMS::new(&chart_lines(&["#BPM 65536"])).err(), Some(ParseError::BadTempo));
    assert_eq!(BMS::new(&chart_lines(&["#BPM 12 "])).err(), Some(ParseError::BadTempo));
    assert_eq!(BMS::new(&chart_lines(&["#BPM +"])).err(), Some(ParseError::BadTempo));
}

#[test]
fn numbers_of_sixteen_bits_are_read() {
    assert_eq!(parse_u16("0"), Some(0));
    assert_eq!(parse_u16("007"), Some(7));
    assert_eq!(parse_u16("+42"), Some(42));
    assert_eq!(parse_u16("65535"), Some(65535));
    assert_eq!(parse_u16("65536"), None);
    assert_eq!(parse_u16("99999999999999999999"), None);
    assert_eq!(parse_u16(""), None);
    assert_eq!(parse_u16("++1"), None);
    assert_eq!(parse_u16("1+"), None);
    assert_eq!(parse_u16("1a"), None);
}

#[test]
fn records_are_ordered_by_measure_and_keep_file_order() {
    let chart = BMS::new(&chart_lines(&[
        "00201:01",
        "00011:02",
        "00202:03",
        "00112:04",
        "00012:05",
        "00201:06",
    ]))
    .ok()
    .unwrap();
    let seen: Vec<(u16, u8, Vec<u32>)> =
        chart.data.iter().map(|d| (d.measure, d.channel, d.message.clone())).collect();
    assert_eq!(
        seen,
        vec![
            (0, 11, vec![2]),
            (0, 12, vec![5]),
            (1, 12, vec![4]),
            (2, 1, vec![1]),
            (2, 2, vec![3]),
            (2, 1, vec![6]),
        ]
    );
}

#[test]
fn sorting_is_stable() {
    let sorted = sort_records(vec![
        datum(3, 0, vec![1]),
        datum(1, 0, vec![2]),
        datum(3, 1, vec![3]),
        datum(1, 1, vec![4]),
        datum(0, 0, vec![5]),
    ]);
    let seen: Vec<(u16, u8)> = sorted.iter().map(|d| (d.measure, d.channel)).collect();
    assert_eq!(seen, vec![(0, 0), (1, 0), (1, 1), (3, 0), (3, 1)]);
    assert!(sort_records(Vec::new()).is_empty());
}
