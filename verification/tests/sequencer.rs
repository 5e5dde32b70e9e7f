use bms_player::chart::{BMSDatum, BMS};
use bms_player::measures::Measures;
use bms_player::samples::{SampleCache, SoundBuffer, Voice};
use bms_player::sequencer::{Advance, BMSSoundProvider, Resolution, Step};

fn lines_of(lines: &[&str]) -> Vec<String> {
    lines.iter().map(|l| l.to_string()).collect()
}

fn provider_of(lines: &[&str]) -> BMSSoundProvider {
    let chart = BMS::new(&lines_of(lines)).ok().unwrap();
    assert!(chart.bpm > 0);
    BMSSoundProvider::new(chart)
}

/// Runs the sequencer to the end; every file asked for decodes to `samples`,
/// but for those named in `missing`.
fn offsets_of(provider: &mut BMSSoundProvider, missing: &[&str]) -> (Vec<u32>, Vec<String>) {
    let mut offsets = Vec::new();
    let mut loads = Vec::new();
    loop {
        match provider.next() {
            Step::Event(e) => offsets.push(e.offset),
            Step::Load(name) => {
                let samples = if missing.contains(&name.as_str()) { None } else { Some(vec![1i16, 2, 3]) };
                loads.push(name.clone());
                provider.supply(name, samples);
            }
            Step::Done => return (offsets, loads),
        }
    }
}

fn record(measure: u16, message: Vec<u32>) -> BMSDatum {
    BMSDatum { measure, channel: 1, message }
}

#[test]
fn groups_are_runs_of_one_measure() {
    let mut measures = Measures::new(vec![
        record(0, vec![1]),
        record(0, vec![2]),
        record(2, vec![3]),
        record(5, vec![4]),
        record(5, vec![5]),
        record(5, vec![6]),
    ]);
    assert_eq!(measures.next(), Some((0, 2)));
    assert_eq!(measures.next(), Some((2, 3)));
    assert_eq!(measures.next(), Some((3, 6)));
    assert_eq!(measures.next(), None);
    assert_eq!(measures.next(), None);
}

#[test]
fn no_records_no_groups() {
    let mut measures = Measures::new(Vec::new());
    assert_eq!(measures.next(), None);
}

#[test]
fn one_event_at_a_quarter_of_the_first_measure() {
    let mut provider = provider_of(&["#BPM 120", "#WAV01 kick.wav", "00001:00010000"]);
    assert_eq!(provider.measure_length, 2000);
    match provider.next() {
        Step::Load(name) => {
            assert_eq!(name, "kick.wav");
            provider.supply(name, Some(vec![5, 6, 7]));
        }
        _ => panic!("the file is not decoded yet"),
    }
    match provider.next() {
        Step::Event(e) => {
            assert_eq!(e.offset, 500);
            assert_eq!(*e.buffer.samples, vec![5, 6, 7]);
        }
        _ => panic!("one event is due"),
    }
    assert!(matches!(provider.next(), Step::Done));
    assert!(matches!(provider.next(), Step::Done));
}

#[test]
fn offsets_follow_the_formula() {
    let mut provider = provider_of(&["#WAV01 a.wav", "00201:000100"]);
    assert_eq!(provider.measure_length, 1846);
    let (offsets, _) = offsets_of(&mut provider, &[]);
    assert_eq!(offsets, vec![(1846 * 2 * 3 + 1846) / 3]);
    assert_eq!(offsets, vec![4307]);
}

#[test]
fn offsets_never_fall() {
    let mut provider = provider_of(&[
        "#BPM 120",
        "#WAV01 a.wav",
        "#WAV02 b.wav",
        "00101:010101",
        "00001:0102",
        "00002:02020202",
        "00102:0201",
        "00701:01",
    ]);
    let (offsets, loads) = offsets_of(&mut provider, &[]);
    assert_eq!(
        offsets,
        vec![0, 0, 500, 1000, 1000, 1500, 2000, 2000, 2666, 3000, 3333, 14000]
    );
    assert!(offsets.windows(2).all(|w| w[0] <= w[1]));
    assert_eq!(loads, vec!["a.wav".to_string(), "b.wav".to_string()]);
}

#[test]
fn smaller_fraction_goes_first() {
    let mut provider = provider_of(&["00001:01010101", "00002:0101"]);
    assert!(matches!(provider.advance(), Advance::Entered));
    provider.cursors = vec![1, 1];
    assert_eq!(provider.next_event_index(), Some(0));
    provider.cursors = vec![3, 1];
    assert_eq!(provider.next_event_index(), Some(1));
    provider.cursors = vec![3, 2];
    assert_eq!(provider.next_event_index(), Some(0));
    provider.cursors = vec![4, 1];
    assert_eq!(provider.next_event_index(), Some(1));
    provider.cursors = vec![4, 2];
    assert_eq!(provider.next_event_index(), None);
}

#[test]
fn equal_fractions_go_to_the_first_record() {
    let mut provider = provider_of(&["00001:01010101", "00002:0101", "00003:010101010101"]);
    assert!(matches!(provider.advance(), Advance::Entered));
    assert_eq!(provider.cursors, vec![0, 0, 0]);
    assert_eq!(provider.next_event_index(), Some(0));
    provider.cursors = vec![2, 1, 3];
    assert_eq!(provider.next_event_index(), Some(0));
    provider.cursors = vec![3, 1, 3];
    assert_eq!(provider.next_event_index(), Some(1));
    provider.cursors = vec![3, 2, 3];
    assert_eq!(provider.next_event_index(), Some(2));
}

#[test]
fn no_measure_at_hand_no_index() {
    let provider = provider_of(&["00001:01"]);
    assert_eq!(provider.next_event_index(), None);
}

#[test]
fn record_of_zeros_gives_no_event() {
    let mut provider = provider_of(&["#WAV01 a.wav", "00001:0000000000000000", "00101:00"]);
    let (offsets, loads) = offsets_of(&mut provider, &[]);
    assert!(offsets.is_empty());
    assert!(loads.is_empty());
}

#[test]
fn record_of_zeros_beside_a_sounding_record() {
    let mut provider =
        provider_of(&["#BPM 240", "#WAV01 a.wav", "00001:000000", "00002:0101", "00003:00"]);
    let (offsets, _) = offsets_of(&mut provider, &[]);
    assert_eq!(offsets, vec![0, 500]);
}

#[test]
fn code_without_a_sample_is_passed_over() {
    let mut provider = provider_of(&["#BPM 120", "#WAV01 a.wav", "00001:0201", "00101:03"]);
    let (offsets, loads) = offsets_of(&mut provider, &[]);
    assert_eq!(offsets, vec![1000]);
    assert_eq!(loads, vec!["a.wav".to_string()]);
}

#[test]
fn file_that_does_not_decode_is_silent_and_asked_for_once() {
    let mut provider =
        provider_of(&["#BPM 120", "#WAV01 a.wav", "#WAV02 gone.wav", "00001:02010201"]);
    let (offsets, loads) = offsets_of(&mut provider, &["gone.wav"]);
    assert_eq!(offsets, vec![500, 1500]);
    assert_eq!(loads, vec!["gone.wav".to_string(), "a.wav".to_string()]);
}

#[test]
fn each_file_is_asked_for_once() {
    let mut provider =
        provider_of(&["#WAV01 a.wav", "#WAV02 a.wav", "#WAV03 b.wav", "00001:0102030102"]);
    let (offsets, loads) = offsets_of(&mut provider, &[]);
    assert_eq!(offsets.len(), 5);
    assert_eq!(loads, vec!["a.wav".to_string(), "b.wav".to_string()]);
}

#[test]
fn load_leaves_the_slot_in_place() {
    let mut provider = provider_of(&["#WAV01 a.wav", "00001:01"]);
    assert!(matches!(provider.advance(), Advance::Entered));
    assert!(matches!(provider.advance(), Advance::Load(_)));
    assert_eq!(provider.cursors, vec![0]);
    assert!(matches!(provider.advance(), Advance::Load(_)));
    provider.supply("a.wav".to_string(), None);
    assert!(matches!(provider.advance(), Advance::Skipped));
    assert_eq!(provider.cursors, vec![1]);
    assert!(matches!(provider.advance(), Advance::Left));
    assert!(matches!(provider.advance(), Advance::Finished));
}

#[test]
fn resolution_of_a_sample() {
    let mut provider = provider_of(&["#WAV01 a.wav", "#WAV02 a.wav", "#WAV03 b.wav"]);
    assert!(matches!(provider.get_source(0), Resolution::Silent));
    assert!(matches!(provider.get_source(4), Resolution::Silent));
    assert!(matches!(provider.get_source(99999), Resolution::Silent));
    match provider.get_source(1) {
        Resolution::Wanted(name) => assert_eq!(name, "a.wav"),
        _ => panic!("nothing is decoded yet"),
    }
    provider.supply("a.wav".to_string(), Some(vec![9, 8]));
    provider.supply("b.wav".to_string(), None);
    match provider.get_source(1) {
        Resolution::Ready(b) => assert_eq!(*b.samples, vec![9, 8]),
        _ => panic!("decoded"),
    }
    match provider.get_source(2) {
        Resolution::Ready(b) => assert_eq!(*b.samples, vec![9, 8]),
        _ => panic!("decoded under another id"),
    }
    assert!(matches!(provider.get_source(3), Resolution::Silent));
}

#[test]
fn first_supply_of_a_name_stays() {
    let mut cache = SampleCache::new();
    assert!(cache.find(&"a".to_string()).is_none());
    cache.supply("a".to_string(), Some(vec![1]));
    cache.supply("a".to_string(), Some(vec![2, 2]));
    cache.supply("a".to_string(), None);
    cache.supply("b".to_string(), None);
    cache.supply("b".to_string(), Some(vec![3]));
    assert_eq!(cache.entries.len(), 2);
    match cache.find(&"a".to_string()) {
        Some(Some(b)) => assert_eq!(*b.samples, vec![1]),
        _ => panic!("a is decoded"),
    }
    assert!(matches!(cache.find(&"b".to_string()), Some(None)));
    assert!(cache.find(&"c".to_string()).is_none());
}

#[test]
fn handles_on_one_buffer_play_apart() {
    let mut provider = provider_of(&["#WAV01 a.wav"]);
    provider.supply("a.wav".to_string(), Some(vec![10, 20, 30]));
    let first = match provider.get_source(1) {
        Resolution::Ready(b) => b,
        _ => panic!("decoded"),
    };
    let second = match provider.get_source(1) {
        Resolution::Ready(b) => b,
        _ => panic!("decoded"),
    };
    let mut one = Voice::new(first);
    let mut two = Voice::new(second);
    assert_eq!(one.next(), Some(10));
    assert_eq!(one.next(), Some(20));
    assert_eq!(two.next(), Some(10));
    assert_eq!(one.next(), Some(30));
    assert_eq!(one.next(), None);
    assert_eq!(one.next(), None);
    assert_eq!(two.next(), Some(20));
    assert_eq!(two.next(), Some(30));
    assert_eq!(two.next(), None);
}

#[test]
fn duplicate_shares_the_samples() {
    let buffer = SoundBuffer::new(vec![4, 5, 6]);
    let other = buffer.duplicate();
    assert_eq!(other.len(), 3);
    assert_eq!(other.sample(2), 6);
    assert_eq!(*other.samples, *buffer.samples);
    assert!(std::sync::Arc::ptr_eq(&other.samples, &buffer.samples));
}
