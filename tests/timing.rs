use sonar::timing::{ConfigError, Timing, DEFAULT_BAUD_RATE, DEFAULT_SAMPLE_RATE};

#[test]
fn default_timing() {
    let t = Timing::defaults();
    assert_eq!(t.sample_rate, DEFAULT_SAMPLE_RATE);
    assert_eq!(t.baud_rate, DEFAULT_BAUD_RATE);
    assert_eq!(Timing::new(48000, 300), Ok(t));
    assert_eq!(t.samples_per_character(), 1600);
    assert_eq!(t.search_window(false), 240);
    assert_eq!(t.search_window(true), 80);
    assert_eq!(t.bit_slot(0), (0, 160));
    assert_eq!(t.bit_slot(9), (1440, 1600));
    assert_eq!(t.bit_start(60), 9600);
}

#[test]
fn fractional_bit_time_rounds() {
    let t = Timing::new(1000, 300).unwrap();
    assert_eq!(t.bit_start(1), 3);
    assert_eq!(t.bit_start(2), 7);
    assert_eq!(t.bit_start(3), 10);
    assert_eq!(t.samples_per_character(), 33);
    assert_eq!(t.search_window(false), 5);
    assert_eq!(t.search_window(true), 2);
    assert_eq!(t.bit_slot(1), (3, 7));
}

#[test]
fn half_rounds_up() {
    let t = Timing::new(3, 1).unwrap();
    assert_eq!(t.search_window(true), 2);
    assert_eq!(t.search_window(false), 5);
}

#[test]
fn slots_cover_the_frame() {
    let t = Timing::new(44100, 1200).unwrap();
    let mut at = 0;
    for i in 0..10 {
        let (start, end) = t.bit_slot(i);
        assert_eq!(start, at);
        assert!(end >= start + 2);
        at = end;
    }
    assert_eq!(at, t.samples_per_character());
    assert_eq!(at, 368);
}

#[test]
fn config_errors() {
    assert_eq!(Timing::new(0, 300), Err(ConfigError::ZeroSampleRate));
    assert_eq!(Timing::new(0, 0), Err(ConfigError::ZeroSampleRate));
    assert_eq!(Timing::new(48000, 0), Err(ConfigError::ZeroBaudRate));
    assert_eq!(Timing::new(599, 300), Err(ConfigError::TooFewSamplesPerBit));
    assert_eq!(
        Timing::new(600, 300),
        Ok(Timing { sample_rate: 600, baud_rate: 300 })
    );
}
