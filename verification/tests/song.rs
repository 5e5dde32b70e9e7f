use bms_player::chart::BMS;
use bms_player::sequencer::BMSSoundProvider;
use bms_player::song::{attenuate, Song, Tick};

fn song_of(lines: &[&str]) -> Song {
    let lines: Vec<String> = lines.iter().map(|l| l.to_string()).collect();
    let chart = BMS::new(&lines).ok().unwrap();
    assert!(chart.bpm > 0);
    Song::new(BMSSoundProvider::new(chart))
}

/// Plays the song to its end; the file `name` decodes to `len` samples of `amplitude`.
fn play(song: &mut Song, sources: &[(&str, usize, i16)]) -> Vec<i128> {
    let mut out = Vec::new();
    loop {
        assert!(song.current_offset < u64::MAX);
        match song.next() {
            Tick::Sample(v) => out.push(v),
            Tick::Load(name) => {
                let found = sources.iter().find(|s| s.0 == name);
                let samples = found.map(|s| vec![s.2; s.1]);
                song.sound_provider.supply(name, samples);
            }
            Tick::Done => return out,
        }
    }
}

#[test]
fn gain_of_one_voice_is_a_fifth() {
    assert_eq!(attenuate(10000), 2000);
    assert_eq!(attenuate(7), 1);
    assert_eq!(attenuate(4), 0);
    assert_eq!(attenuate(0), 0);
    assert_eq!(attenuate(-4), 0);
    assert_eq!(attenuate(-7), -1);
    assert_eq!(attenuate(32767), 6553);
    assert_eq!(attenuate(-32768), -6553);
}

#[test]
fn two_voices_add_up_while_both_play() {
    let mut song = song_of(&["#WAV01 a.wav", "#WAV02 b.wav", "00001:01", "00002:02"]);
    let out = play(&mut song, &[("a.wav", 44100, 10000), ("b.wav", 22050, 5000)]);
    assert_eq!(out.len(), 44101);
    assert!(out[..22050].iter().all(|v| *v == 3000));
    assert!(out[22050..44100].iter().all(|v| *v == 2000));
    assert_eq!(out[44100], 0);
}

#[test]
fn two_equal_voices_of_one_second() {
    let mut song = song_of(&["#WAV01 a.wav", "#WAV02 b.wav", "00001:01", "00002:02"]);
    let out = play(&mut song, &[("a.wav", 44100, 10000), ("b.wav", 44100, 10000)]);
    assert_eq!(out.len(), 44101);
    assert!(out[..44100].iter().all(|v| *v == 4000));
    assert_eq!(out[44100], 0);
}

#[test]
fn voice_starts_at_the_sample_of_its_offset() {
    let mut song = song_of(&["#BPM 240", "#WAV01 a.wav", "00001:0001"]);
    let out = play(&mut song, &[("a.wav", 3, -10)]);
    let start = 500 * 44100 / 1000;
    assert_eq!(out.len(), start + 4);
    assert!(out[..start].iter().all(|v| *v == 0));
    assert_eq!(&out[start..], &[-2, -2, -2, 0]);
}

#[test]
fn one_sample_under_two_ids_plays_twice_at_once() {
    let mut song = song_of(&["#WAV01 a.wav", "#WAV02 a.wav", "00001:01", "00002:02"]);
    let out = play(&mut song, &[("a.wav", 2, 50)]);
    assert_eq!(out, vec![20, 20, 0]);
}

#[test]
fn missing_sample_leaves_the_stream_as_it_is() {
    let mut with = song_of(&["#BPM 240", "#WAV01 a.wav", "00001:0301", "00002:02"]);
    let mut without = song_of(&["#BPM 240", "#WAV01 a.wav", "00001:0001", "00002:00"]);
    let sources = [("a.wav", 5, 100)];
    let heard = play(&mut with, &sources);
    assert_eq!(heard, play(&mut without, &sources));
    assert_eq!(heard.len(), 500 * 44100 / 1000 + 6);
}

#[test]
fn undecodable_file_is_silent() {
    let mut song = song_of(&["#WAV01 gone.wav", "#WAV02 a.wav", "00001:01", "00002:02"]);
    let out = play(&mut song, &[("a.wav", 2, 5)]);
    assert_eq!(out, vec![1, 1, 0]);
}

#[test]
fn chart_without_sounds_is_over_at_once() {
    let mut song = song_of(&["#BPM 120", "00001:0000"]);
    assert!(matches!(song.next(), Tick::Done));
    assert!(matches!(song.next(), Tick::Done));
    assert_eq!(song.current_offset, 0);
    let mut song = song_of(&[]);
    assert!(matches!(song.next(), Tick::Done));
}

#[test]
fn new_song_stands_at_the_first_sample() {
    let song = song_of(&["#WAV01 a.wav", "00001:01"]);
    assert_eq!(song.current_offset, 0);
    assert_eq!(song.sample_rate, 44100);
    assert!(song.current_sources.is_empty());
    assert!(song.upcoming.is_none());
    assert!(!song.exhausted);
}

#[test]
fn event_that_is_due_starts_a_voice() {
    let mut song = song_of(&["#WAV01 a.wav", "00001:01"]);
    let due = bms_player::sequencer::SoundEvent {
        offset: 0,
        buffer: bms_player::samples::SoundBuffer::new(vec![1, 2]),
    };
    assert!(song.take_event(due));
    assert!(song.upcoming.is_none());
    assert_eq!(song.current_sources.len(), 1);
    assert_eq!(song.current_sources[0].position, 0);
    let later = bms_player::sequencer::SoundEvent {
        offset: 1,
        buffer: bms_player::samples::SoundBuffer::new(vec![3]),
    };
    assert_eq!(song.start_of(&later), 44);
    assert!(!song.take_event(later));
    assert_eq!(song.upcoming.as_ref().map(|e| e.offset), Some(1));
    assert_eq!(song.current_sources.len(), 1);
}

#[test]
fn mixing_moves_every_voice_on_and_drops_the_spent() {
    let mut song = song_of(&[]);
    for samples in [vec![100i16, -100], vec![], vec![50]] {
        song.current_sources.push(bms_player::samples::Voice::new(
            bms_player::samples::SoundBuffer::new(samples),
        ));
    }
    assert_eq!(song.mix(), 30);
    assert_eq!(song.current_offset, 1);
    let positions: Vec<usize> = song.current_sources.iter().map(|v| v.position).collect();
    assert_eq!(positions, vec![1, 1]);
    assert_eq!(song.mix(), -20);
    assert_eq!(song.current_sources.len(), 1);
    assert_eq!(song.mix(), 0);
    assert!(song.current_sources.is_empty());
    assert_eq!(song.mix(), 0);
    assert_eq!(song.current_offset, 4);
}

#[test]
fn intake_move_by_move() {
    let mut song = song_of(&["#BPM 240", "#WAV01 a.wav", "00001:0101"]);
    match song.feed() {
        bms_player::song::Feed::Load(name) => {
            assert_eq!(name, "a.wav");
            song.sound_provider.supply(name, Some(vec![1]));
        }
        _ => panic!("the file is not decoded yet"),
    }
    assert!(matches!(song.feed(), bms_player::song::Feed::Started));
    assert_eq!(song.current_sources.len(), 1);
    assert!(matches!(song.feed(), bms_player::song::Feed::Waits));
    assert_eq!(song.upcoming.as_ref().map(|e| e.offset), Some(500));
    assert!(matches!(song.feed(), bms_player::song::Feed::Waits));
    assert_eq!(song.current_sources.len(), 1);
    assert!(song.start_due().is_none());
    assert_eq!(song.current_offset, 0);
}
