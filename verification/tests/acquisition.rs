use am2301::measure::{read_bits_timeout, ACQUISITION_BOUND_US};
use am2301::pin::SensorPin;
use am2301::sim::SimPin;
use am2301::{measure_once, measure_once_timeout, MeasureError};

const VALID_BITS: [u8; 40] = [
    0, 0, 0, 0, 0, 0, 1, 0, //
    1, 0, 0, 1, 0, 0, 1, 0, //
    0, 0, 0, 0, 0, 0, 0, 1, //
    0, 0, 0, 0, 1, 1, 0, 1, //
    1, 0, 1, 0, 0, 0, 1, 0,
];

/// A level script for the simulated pin that plays back a frame: the line
/// is low during the 1 ms trigger, gives a short high blip for the
/// preamble rising edge, then one high plateau per bit (70 us for a 1,
/// 20 us for a 0, an 8 us low gap in between).
fn script_for(bits: &[u8; 40]) -> Vec<bool> {
    let mut v = vec![false; 1005];
    v.extend(vec![true; 3]);
    v.extend(vec![false; 8]);
    for &b in bits.iter() {
        let width = if b == 1 { 70 } else { 20 };
        v.extend(vec![true; width]);
        v.extend(vec![false; 8]);
    }
    v.extend(vec![false; 40]);
    v
}

#[test]
fn sim_timeout_when_line_stays_low() {
    let mut pin = SimPin::new(Vec::new());
    let res = measure_once_timeout(&mut pin);
    assert_eq!(res, Err(MeasureError::MeasureTimeoutError));
    // The whole bounded acquisition consumed at most its modelled bound.
    assert!(pin.now_us() <= ACQUISITION_BOUND_US);
}

#[test]
fn sim_read_bits_timeout_returns_scripted_bits() {
    let mut pin = SimPin::new(script_for(&VALID_BITS));
    let bits = read_bits_timeout(&mut pin).unwrap();
    assert_eq!(bits, VALID_BITS);
}

#[test]
fn sim_frame_decodes() {
    let mut pin = SimPin::new(script_for(&VALID_BITS));
    let m = measure_once_timeout(&mut pin).unwrap();
    assert_eq!(m.humidity_tenths, 658);
    assert_eq!(m.temperature_magnitude_tenths, 269);
    assert!(!m.temperature_negative);
}

#[test]
fn sim_corrupt_frame_gives_checksum_error() {
    let mut corrupted = VALID_BITS;
    corrupted[35] = 1;
    let mut pin = SimPin::new(script_for(&corrupted));
    let res = measure_once_timeout(&mut pin);
    assert_eq!(res, Err(MeasureError::ChecksumError));
}

#[test]
fn sim_legacy_path_decodes() {
    let mut pin = SimPin::new(script_for(&VALID_BITS));
    let m = measure_once(&mut pin).unwrap();
    assert_eq!(m.humidity_tenths, 658);
    assert_eq!(m.temperature_magnitude_tenths, 269);
    assert!(!m.temperature_negative);
}
