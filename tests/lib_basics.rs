use sonar::modem::{bits_to_byte, byte_to_bits};

#[test]
fn some_test() {
    assert_eq!((2_i32.pow(3)) - 4, 4);
}

#[test]
fn byte_to_bits_is_msb_first() {
    assert_eq!(
        byte_to_bits(0x41),
        vec![false, true, false, false, false, false, false, true]
    );
    assert_eq!(byte_to_bits(0x00), vec![false; 8]);
    assert_eq!(byte_to_bits(0xFF), vec![true; 8]);
    assert_eq!(
        byte_to_bits(0x80),
        vec![true, false, false, false, false, false, false, false]
    );
}

#[test]
fn bits_to_byte_reads_msb_first() {
    assert_eq!(
        bits_to_byte(&[false, true, false, false, false, false, false, true]),
        0x41
    );
    assert_eq!(bits_to_byte(&[]), 0);
    assert_eq!(bits_to_byte(&[true, false, true]), 0b101);
}

#[test]
fn bits_to_byte_keeps_last_eight_bits() {
    let bits = [true, true, false, false, false, false, false, false, true, false];
    assert_eq!(bits_to_byte(&bits), 0b0000_0010);
}

#[test]
fn byte_bits_round_trip_for_every_byte() {
    for b in 0..=255u8 {
        assert_eq!(bits_to_byte(&byte_to_bits(b)), b);
    }
}
