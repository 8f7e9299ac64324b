use am2301::{convert_byte_to_u8, process_response, Measure, ProcessResponseError};

fn humidity_percent(m: &Measure) -> f64 {
    m.humidity_tenths as f64 * 0.1
}

fn temperature_celsius(m: &Measure) -> f64 {
    let magnitude = m.temperature_magnitude_tenths as f64 * 0.1;
    if m.temperature_negative {
        -magnitude
    } else {
        magnitude
    }
}

#[test]
fn test_valid_conversion() {
    // 00000010 10010010 00000001 00001101 10100010 example from datasheet
    let bits = [
        0, 0, 0, 0, 0, 0, 1, 0, //
        1, 0, 0, 1, 0, 0, 1, 0, //
        0, 0, 0, 0, 0, 0, 0, 1, //
        0, 0, 0, 0, 1, 1, 0, 1, //
        1, 0, 1, 0, 0, 0, 1, 0,
    ];
    match process_response(bits) {
        Ok(m) => {
            let expected_humidity = 65.8;
            assert!((humidity_percent(&m) - expected_humidity).abs() < 0.01);
            let expected_temperature = 26.9;
            assert!((temperature_celsius(&m) - expected_temperature).abs() < 0.01);
        }
        Err(_) => assert!(false),
    }
}

#[test]
fn fail_when_checksum_does_not_match() {
    // 00000010 10010010 00000001 00001101 10110010 example from datasheet
    let bits = [
        0, 0, 0, 0, 0, 0, 1, 0, //
        1, 0, 0, 1, 0, 0, 1, 0, //
        0, 0, 0, 0, 0, 0, 0, 1, //
        0, 0, 0, 0, 1, 1, 0, 1, //
        1, 0, 1, 1, 0, 0, 1, 0,
    ];
    let res = process_response(bits);

    assert!(res.is_err());
}

#[test]
fn fail_ok_when_checksum_overflow() {
    let bits = [
        0, 0, 0, 0, 0, 0, 1, 0, //
        1, 0, 0, 1, 0, 0, 1, 0, //
        0, 0, 0, 0, 0, 0, 0, 1, //
        0, 0, 0, 0, 1, 1, 0, 1, //
        1, 0, 1, 0, 0, 0, 1, 0,
    ];
    let res = process_response(bits);

    assert!(res.is_ok());
}

#[test]
fn test_with_negative_temperature() {
    let bits = [
        0, 0, 0, 0, 0, 0, 1, 0, //
        0, 0, 0, 1, 0, 0, 1, 0, //
        1, 0, 0, 0, 0, 0, 0, 1, //
        0, 0, 0, 0, 1, 1, 0, 1, //
        1, 0, 1, 0, 0, 0, 1, 0,
    ];

    match process_response(bits) {
        Ok(m) => {
            let expected_temperature = -26.9;
            assert!((temperature_celsius(&m) - expected_temperature).abs() < 0.01);
        }
        Err(_) => assert!(false),
    }
}

#[test]
fn u8_addition_overflow() {
    let num1 = 250u8;
    let num2 = 100u8;

    assert_eq!(num1.wrapping_add(num2), 94);
}

#[test]
fn checksum_error_variant() {
    let bits = [
        0, 0, 0, 0, 0, 0, 1, 0, //
        1, 0, 0, 1, 0, 0, 1, 0, //
        0, 0, 0, 0, 0, 0, 0, 1, //
        0, 0, 0, 0, 1, 1, 0, 1, //
        1, 0, 1, 1, 0, 0, 1, 0,
    ];
    assert_eq!(
        process_response(bits),
        Err(ProcessResponseError::InvalidChecksumError)
    );
}

#[test]
fn checksum_wraps_on_overflow() {
    // Fields 250, 100, 0, 0: their wrapping 8-bit sum is 94, not 350.
    let bits = [
        1, 1, 1, 1, 1, 0, 1, 0, //
        0, 1, 1, 0, 0, 1, 0, 0, //
        0, 0, 0, 0, 0, 0, 0, 0, //
        0, 0, 0, 0, 0, 0, 0, 0, //
        0, 1, 0, 1, 1, 1, 1, 0,
    ];
    let m = process_response(bits).unwrap();
    assert_eq!(m.humidity_tenths, 64100);
    assert_eq!(m.temperature_magnitude_tenths, 0);
    assert!(!m.temperature_negative);
}

#[test]
fn decode_twice_is_identical() {
    let bits = [
        0, 0, 0, 0, 0, 0, 1, 0, //
        1, 0, 0, 1, 0, 0, 1, 0, //
        0, 0, 0, 0, 0, 0, 0, 1, //
        0, 0, 0, 0, 1, 1, 0, 1, //
        1, 0, 1, 0, 0, 0, 1, 0,
    ];
    let first = process_response(bits);
    let second = process_response(bits);
    assert_eq!(first, second);
}

#[test]
fn convert_byte_examples() {
    assert_eq!(convert_byte_to_u8(&[1, 0, 1, 0, 0, 0, 1, 0]), 162);
    assert_eq!(convert_byte_to_u8(&[0, 0, 0, 0, 0, 0, 0, 0]), 0);
    assert_eq!(convert_byte_to_u8(&[1, 1, 1, 1, 1, 1, 1, 1]), 255);
    assert_eq!(convert_byte_to_u8(&[0, 0, 0, 0, 0, 0, 0, 1]), 1);
}
