use sonar::finder::{Candidate, FrameFinder, SearchWindow};
use sonar::framing::{decode_character, encode_bits};
use sonar::timing::{ConfigError, Timing};

const THRESHOLD: u32 = 5;

/// Renders bits the way an ideal modem would after demodulation: +1 for a
/// mark sample, -1 for a space sample.
fn tones(timing: &Timing, bits: &[bool]) -> Vec<i8> {
    let mut samples = Vec::new();
    for (k, &bit) in bits.iter().enumerate() {
        let from = timing.bit_start(k as u64);
        let to = timing.bit_start(k as u64 + 1);
        for _ in from..to {
            samples.push(if bit { 1 } else { -1 });
        }
    }
    samples
}

fn encode(timing: &Timing, payload: &[u8]) -> Vec<i8> {
    tones(timing, &encode_bits(payload))
}

/// A noiseless analyser: reads each bit slot at its first sample; a silent
/// slot or a framing error scores zero.
fn analyzer(timing: Timing) -> impl Fn(&[i8]) -> Candidate {
    move |frame: &[i8]| {
        let mut bits = Vec::new();
        for i in 0..10 {
            let (start, _) = timing.bit_slot(i);
            let s = frame[start as usize];
            if s == 0 {
                return Candidate { score: 0, byte: 0 };
            }
            bits.push(s > 0);
        }
        match decode_character(&bits) {
            Some(byte) => Candidate { score: 10, byte },
            None => Candidate { score: 0, byte: 0 },
        }
    }
}

fn default_finder() -> FrameFinder<i8> {
    FrameFinder::new(48000, 300, THRESHOLD).unwrap()
}

#[test]
fn minimal_round_trip() {
    let timing = Timing::defaults();
    let mut finder = default_finder();
    let found = finder.push(&encode(&timing, &[0x41]), &analyzer(timing));
    assert_eq!(found, Some(vec![0x41]));
    assert!(finder.is_receiving());
}

#[test]
fn multi_byte() {
    let timing = Timing::defaults();
    let mut finder = default_finder();
    let payload = [0x48, 0x65, 0x6C, 0x6C, 0x6F];
    let found = finder.push(&encode(&timing, &payload), &analyzer(timing));
    assert_eq!(found, Some(vec![0x48, 0x65, 0x6C, 0x6C, 0x6F]));
}

#[test]
fn fragmented_push() {
    let timing = Timing::defaults();
    let mut finder = default_finder();
    let payload = [0x48, 0x65, 0x6C, 0x6C, 0x6F];
    let samples = encode(&timing, &payload);
    let analyze = analyzer(timing);
    let mut all = Vec::new();
    for chunk in samples.chunks(37) {
        if let Some(bytes) = finder.push(chunk, &analyze) {
            all.extend(bytes);
        }
    }
    assert_eq!(all, payload.to_vec());
}

#[test]
fn leading_silence() {
    let timing = Timing::defaults();
    let mut finder = default_finder();
    let mut samples = vec![0i8; 48000];
    samples.extend(encode(&timing, &[0x7E]));
    let found = finder.push(&samples, &analyzer(timing));
    assert_eq!(found, Some(vec![0x7E]));
}

#[test]
fn framing_error() {
    let timing = Timing::defaults();
    let mut finder = default_finder();
    let bits = [true, true, false, false, false, false, false, true, false, true, true];
    let found = finder.push(&tones(&timing, &bits), &analyzer(timing));
    assert_eq!(found, None);
    assert!(!finder.is_receiving());
}

#[test]
fn two_messages_separated_by_silence() {
    let timing = Timing::defaults();
    let analyze = analyzer(timing);
    let mut finder = default_finder();
    let first = finder.push(&encode(&timing, &[0x31]), &analyze);
    assert_eq!(first, Some(vec![0x31]));
    finder.reset_state();
    assert!(!finder.is_receiving());
    let mut rest = vec![0i8; 24000];
    rest.extend(encode(&timing, &[0x32]));
    let second = finder.push(&rest, &analyze);
    assert_eq!(second, Some(vec![0x32]));
}

#[test]
fn every_chunk_size_gives_the_payload() {
    let timing = Timing::new(4800, 300).unwrap();
    let payload = b"Hello, World!\n";
    let samples = encode(&timing, payload);
    let analyze = analyzer(timing);
    for size in [1, 2, 7, 16, 37, 160, 1000, samples.len()] {
        let mut finder: FrameFinder<i8> = FrameFinder::new(4800, 300, THRESHOLD).unwrap();
        let mut all = Vec::new();
        for chunk in samples.chunks(size) {
            if let Some(bytes) = finder.push(chunk, &analyze) {
                all.extend(bytes);
            }
        }
        assert_eq!(all, payload.to_vec());
    }
}

#[test]
fn noise_only_keeps_buffer_small() {
    let timing = Timing::defaults();
    let mut finder = default_finder();
    let noise: Vec<i8> = (0..20000).map(|i| if (i * 7919) % 13 < 6 { 1 } else { -1 }).collect();
    let _ = finder.push(&noise, &analyzer(timing));
    assert!(finder.buffer().len() < 240 + 1600);
    assert!(finder.pending_window().is_none());
}

#[test]
fn partial_frame_waits() {
    let timing = Timing::defaults();
    let mut finder = default_finder();
    let found = finder.push(&vec![1i8; 1000], &analyzer(timing));
    assert_eq!(found, None);
    assert_eq!(finder.buffer().len(), 1000);
    assert_eq!(finder.pending_window(), None);
}

#[test]
fn finder_config_errors() {
    assert!(matches!(
        FrameFinder::<i8>::new(0, 300, 5),
        Err(ConfigError::ZeroSampleRate)
    ));
    assert!(matches!(
        FrameFinder::<i8>::new(48000, 0, 5),
        Err(ConfigError::ZeroBaudRate)
    ));
    assert!(matches!(
        FrameFinder::<i8>::new(500, 300, 5),
        Err(ConfigError::TooFewSamplesPerBit)
    ));
    assert!(matches!(
        FrameFinder::<i8>::new(48000, 300, 0),
        Err(ConfigError::ZeroThreshold)
    ));
}

#[test]
fn search_window_follows_mode() {
    let mut finder: FrameFinder<u8> = FrameFinder::new(600, 300, THRESHOLD).unwrap();
    assert_eq!(finder.pending_window(), None);
    finder.append(&[0u8; 23]);
    assert_eq!(
        finder.pending_window(),
        Some(SearchWindow { start: 0, offsets: 3, frame_len: 20 })
    );
    let found = finder.step(&[
        Candidate { score: 1, byte: 9 },
        Candidate { score: 7, byte: 0x41 },
        Candidate { score: 7, byte: 0x42 },
    ]);
    assert_eq!(found, Some(0x41));
    assert!(finder.is_receiving());
    finder.append(&[0u8; 20]);
    assert_eq!(
        finder.pending_window(),
        Some(SearchWindow { start: 21, offsets: 1, frame_len: 20 })
    );
    finder.commit();
    assert_eq!(finder.buffer().len(), 22);
    assert_eq!(
        finder.pending_window(),
        Some(SearchWindow { start: 0, offsets: 1, frame_len: 20 })
    );
    finder.reset_state();
    assert!(!finder.is_receiving());
    assert_eq!(finder.buffer().len(), 22);
}

#[test]
fn rejected_search_skips_its_offsets() {
    let mut finder: FrameFinder<u8> = FrameFinder::new(600, 300, THRESHOLD).unwrap();
    finder.append(&[0u8; 30]);
    let found = finder.step(&[
        Candidate { score: 4, byte: 1 },
        Candidate { score: 0, byte: 2 },
        Candidate { score: 4, byte: 3 },
    ]);
    assert_eq!(found, None);
    assert!(!finder.is_receiving());
    assert_eq!(
        finder.pending_window(),
        Some(SearchWindow { start: 3, offsets: 3, frame_len: 20 })
    );
}

#[test]
fn threshold_is_inclusive() {
    let mut finder: FrameFinder<u8> = FrameFinder::new(600, 300, THRESHOLD).unwrap();
    finder.append(&[0u8; 30]);
    let found = finder.step(&[
        Candidate { score: 0, byte: 1 },
        Candidate { score: 0, byte: 2 },
        Candidate { score: THRESHOLD, byte: 3 },
    ]);
    assert_eq!(found, Some(3));
    assert_eq!(
        finder.pending_window(),
        None
    );
    finder.commit();
    assert_eq!(finder.buffer().len(), 8);
}
