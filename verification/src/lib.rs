//! Decoder and acquisition pipeline for an AM2301-class single-wire
//! humidity/temperature sensor.
//!
//! A measurement is a 40-bit frame: five 8-bit fields in wire order
//! (humidity high, humidity low, temperature high, temperature low,
//! checksum).  The checksum field must equal the wrapping 8-bit sum of the
//! four preceding fields.  Humidity is the 16-bit big-endian value of the
//! first two fields in 0.1 % units; temperature is sign-magnitude: the top
//! bit of the third field is the sign, the remaining 15 bits are the
//! magnitude in 0.1 degree Celsius units.
use vstd::prelude::*;

pub mod measure;
pub mod pin;
pub mod sim;

verus! {

use vstd::arithmetic::power2::{pow2, lemma_pow2_unfold, lemma2_to64};
use crate::measure::{
    acquisition_from_line,
    legacy_acquisition,
    read_bits,
    read_bits_timeout,
    ReadBitsError,
    ACQUISITION_BOUND_US,
};
use crate::pin::SensorPin;

/// A frame bit is stored as a `u8` that is 0 or 1.
pub open spec fn is_bit(b: u8) -> bool {
    b == 0 || b == 1
}

/// A well-formed frame: exactly 40 binary values.
pub open spec fn frame_ok(s: Seq<u8>) -> bool {
    s.len() == 40 && forall|i: int| 0 <= i < s.len() ==> is_bit(#[trigger] s[i])
}

/// The unsigned integer a bit sequence denotes, most significant bit first.
pub open spec fn bits_value(s: Seq<u8>) -> int
    decreases s.len(),
{
    if s.len() == 0 {
        0
    } else {
        2 * bits_value(s.drop_last()) + s.last()
    }
}

/// The value of the `k`-th 8-bit field of a frame (fields in wire order).
pub open spec fn field_value(s: Seq<u8>, k: int) -> int {
    bits_value(s.subrange(8 * k, 8 * k + 8))
}

/// The wrapping 8-bit sum of the first four fields (overflow wraps modulo
/// 256, matching the sensor's own checksum arithmetic).
pub open spec fn wrapping_sum(s: Seq<u8>) -> int {
    (field_value(s, 0) + field_value(s, 1) + field_value(s, 2) + field_value(s, 3)) % 256
}

/// Whether the checksum field equals the wrapping sum of the data fields.
pub open spec fn checksum_matches(s: Seq<u8>) -> bool {
    wrapping_sum(s) == field_value(s, 4)
}

/// Humidity in 0.1 % units: fields 1 and 2 as one 16-bit value, MSB first.
pub open spec fn humidity_tenths_of(s: Seq<u8>) -> int {
    bits_value(s.subrange(0, 16))
}

/// Whether the temperature sign bit (most significant bit of field 3) is set.
pub open spec fn temp_negative_of(s: Seq<u8>) -> bool {
    s[16] == 1
}

/// Temperature magnitude in 0.1 degree units: the 7 low bits of field 3
/// followed by all 8 bits of field 4, MSB first.
pub open spec fn temp_magnitude_tenths_of(s: Seq<u8>) -> int {
    bits_value(s.subrange(17, 32))
}

/// A bit sequence denotes a value below `2^len`.
pub proof fn lemma_bits_value_bound(s: Seq<u8>)
    requires
        forall|i: int| 0 <= i < s.len() ==> is_bit(#[trigger] s[i]),
    ensures
        0 <= bits_value(s) < pow2(s.len() as nat),
    decreases s.len(),
{
    if s.len() == 0 {
        lemma2_to64();
    } else {
        let prefix = s.drop_last();
        assert(forall|i: int| 0 <= i < prefix.len() ==> is_bit(#[trigger] prefix[i]));
        lemma_bits_value_bound(prefix);
        lemma_pow2_unfold(s.len() as nat);
        assert(is_bit(s.last()));
    }
}

/// Concatenation shifts the left part by `2^(length of the right part)`.
pub proof fn lemma_bits_value_concat(a: Seq<u8>, b: Seq<u8>)
    ensures
        bits_value(a + b) == bits_value(a) * pow2(b.len() as nat) + bits_value(b),
    decreases b.len(),
{
    if b.len() == 0 {
        assert(a + b =~= a);
        lemma2_to64();
        assert(pow2(0) == 1);
        assert(bits_value(b) == 0);
        assert(bits_value(a + b) == bits_value(a) * pow2(b.len() as nat) + bits_value(b));
    } else {
        let b0 = b.drop_last();
        lemma_bits_value_concat(a, b0);
        assert((a + b).drop_last() =~= a + b0);
        assert((a + b).last() == b.last());
        lemma_pow2_unfold(b.len() as nat);
        assert(pow2(b.len() as nat) == 2 * pow2(b0.len() as nat));
        assert(bits_value(a + b) == 2 * bits_value(a + b0) + b.last());
        assert(2 * (bits_value(a) * pow2(b0.len() as nat))
            == bits_value(a) * (2 * pow2(b0.len() as nat))) by (nonlinear_arith);
        assert(bits_value(a + b) == bits_value(a) * pow2(b.len() as nat) + bits_value(b));
    }
}

/// Converts one 8-bit field, most significant bit first, to its value.
#[verifier::loop_isolation(false)]
pub fn convert_byte_to_u8(byte: &[u8; 8]) -> (value: u8)
    requires
        forall|i: int| 0 <= i < 8 ==> is_bit(#[trigger] byte@[i]),
    ensures
        value as int == bits_value(byte@),
{
    let mut value: u8 = 0;
    let mut idx: usize = 0;
    while idx < 8
        invariant
            idx <= 8,
            value as int == bits_value(byte@.subrange(0, idx as int)),
            value < 128 || idx == 8,
        decreases 8 - idx,
    {
        proof {
            let prefix = byte@.subrange(0, idx as int);
            assert(forall|i: int| 0 <= i < prefix.len() ==> is_bit(#[trigger] prefix[i]));
            lemma_bits_value_bound(prefix);
            lemma2_to64();
            assert(byte@.subrange(0, idx + 1).drop_last() =~= prefix);
        }
        value = 2 * value + byte[idx];
        idx = idx + 1;
        proof {
            let prefix = byte@.subrange(0, idx as int);
            assert(forall|i: int| 0 <= i < prefix.len() ==> is_bit(#[trigger] prefix[i]));
            lemma_bits_value_bound(prefix);
            lemma2_to64();
        }
    }
    proof {
        assert(byte@.subrange(0, 8) =~= byte@);
    }
    value
}

/// A decoded measurement.  Humidity and temperature are kept in the
/// sensor's own 0.1-unit fixed-point form; the temperature is
/// sign-magnitude, as on the wire.  Dividing by ten gives percent and
/// degrees Celsius.
#[derive(Clone, Copy, Debug, PartialEq, Eq, Structural)]
pub struct Measure {
    /// Relative humidity in 0.1 % units, in [0, 1000] for in-range sensors.
    pub humidity_tenths: u16,
    /// Whether the temperature is negative (the sign bit of the frame).
    pub temperature_negative: bool,
    /// Temperature magnitude in 0.1 degree Celsius units.
    pub temperature_magnitude_tenths: u16,
}

/// How decoding a frame can fail.
#[derive(Clone, Copy, Debug, PartialEq, Eq, Structural)]
pub enum ProcessResponseError {
    /// The checksum field does not equal the wrapping sum of the four data
    /// fields.
    InvalidChecksumError,
    /// A field had the wrong length.  Defensive: acquisition always hands
    /// over exactly 40 bits, so decoding never actually produces this.
    InvalidNumberOfBits,
}

/// Possible ways a measure can fail.
#[derive(Clone, Copy, Debug, PartialEq, Eq, Structural)]
pub enum MeasureError {
    /// A timeout occurred during the measure.
    MeasureTimeoutError,
    /// The checksum of the measure does not match its content.
    ChecksumError,
    /// Invalid measure.
    MeasureError,
}

impl From<ProcessResponseError> for MeasureError {
    fn from(value: ProcessResponseError) -> (r: Self) {
        match value {
            ProcessResponseError::InvalidChecksumError => MeasureError::ChecksumError,
            ProcessResponseError::InvalidNumberOfBits => MeasureError::MeasureError,
        }
    }
}

impl vstd::std_specs::convert::FromSpecImpl<ProcessResponseError> for MeasureError {
    open spec fn obeys_from_spec() -> bool {
        true
    }

    open spec fn from_spec(value: ProcessResponseError) -> Self {
        match value {
            ProcessResponseError::InvalidChecksumError => MeasureError::ChecksumError,
            ProcessResponseError::InvalidNumberOfBits => MeasureError::MeasureError,
        }
    }
}

impl From<ReadBitsError> for MeasureError {
    fn from(value: ReadBitsError) -> (r: Self) {
        match value {
            ReadBitsError::TimeoutErr => MeasureError::MeasureTimeoutError,
        }
    }
}

impl vstd::std_specs::convert::FromSpecImpl<ReadBitsError> for MeasureError {
    open spec fn obeys_from_spec() -> bool {
        true
    }

    open spec fn from_spec(value: ReadBitsError) -> Self {
        MeasureError::MeasureTimeoutError
    }
}

/// What decoding a frame returns: the measurement read off the five
/// fields when the checksum holds, and a checksum failure otherwise.
pub open spec fn decode_spec(s: Seq<u8>) -> Result<Measure, ProcessResponseError> {
    if checksum_matches(s) {
        Ok(
            Measure {
                humidity_tenths: humidity_tenths_of(s) as u16,
                temperature_negative: temp_negative_of(s),
                temperature_magnitude_tenths: temp_magnitude_tenths_of(s) as u16,
            },
        )
    } else {
        Err(ProcessResponseError::InvalidChecksumError)
    }
}

/// Copies the `k`-th 8-bit field out of a frame.
fn field_byte(bits: &[u8; 40], k: usize) -> (byte: [u8; 8])
    requires
        k < 5,
    ensures
        byte@ == bits@.subrange(8 * k as int, 8 * k as int + 8),
{
    let base = 8 * k;
    let byte = [
        bits[base],
        bits[base + 1],
        bits[base + 2],
        bits[base + 3],
        bits[base + 4],
        bits[base + 5],
        bits[base + 6],
        bits[base + 7],
    ];
    proof {
        assert(byte@ =~= bits@.subrange(8 * k as int, 8 * k as int + 8));
    }
    byte
}

/// Decodes a 40-bit frame: verifies the wrapping 8-bit checksum, then
/// reconstructs humidity and sign-magnitude temperature in 0.1 units.
pub fn process_response(bits: [u8; 40]) -> (r: Result<Measure, ProcessResponseError>)
    requires
        frame_ok(bits@),
    ensures
        r == decode_spec(bits@),
        r is Ok <==> checksum_matches(bits@),
{
    let byte1 = field_byte(&bits, 0);
    let byte2 = field_byte(&bits, 1);
    let byte3 = field_byte(&bits, 2);
    let byte4 = field_byte(&bits, 3);
    let byte5 = field_byte(&bits, 4);
    proof {
        assert forall|k: int, i: int| 0 <= k < 5 && 0 <= i < 8 implies is_bit(
            #[trigger] bits@.subrange(8 * k, 8 * k + 8)[i],
        ) by {
            assert(bits@.subrange(8 * k, 8 * k + 8)[i] == bits@[8 * k + i]);
        }
    }
    let v1 = convert_byte_to_u8(&byte1);
    let v2 = convert_byte_to_u8(&byte2);
    let v3 = convert_byte_to_u8(&byte3);
    let v4 = convert_byte_to_u8(&byte4);
    let checksum_left = v1.wrapping_add(v2).wrapping_add(v3).wrapping_add(v4);
    let checksum_right = convert_byte_to_u8(&byte5);
    proof {
        let s = v1 as int + v2 as int + v3 as int + v4 as int;
        let r = checksum_left as int;
        if r == s {
            vstd::arithmetic::div_mod::lemma_fundamental_div_mod_converse(s, 256, 0, r);
        } else if r == s - 256 {
            vstd::arithmetic::div_mod::lemma_fundamental_div_mod_converse(s, 256, 1, r);
        } else if r == s - 512 {
            vstd::arithmetic::div_mod::lemma_fundamental_div_mod_converse(s, 256, 2, r);
        } else {
            assert(r == s - 768);
            vstd::arithmetic::div_mod::lemma_fundamental_div_mod_converse(s, 256, 3, r);
        }
        assert(checksum_left as int == wrapping_sum(bits@));
        assert(checksum_right as int == field_value(bits@, 4));
    }
    if checksum_left != checksum_right {
        return Err(ProcessResponseError::InvalidChecksumError);
    }
    let humidity_tenths = (v1 as u16) * 256 + (v2 as u16);
    let temperature_negative = bits[16] == 1;
    let temperature_magnitude_tenths = ((v3 & 0x7f) as u16) * 256 + (v4 as u16);
    proof {
        let s = bits@;
        lemma2_to64();
        // Humidity: fields 1 and 2 concatenated.
        assert(s.subrange(0, 16) =~= s.subrange(0, 8) + s.subrange(8, 16));
        lemma_bits_value_concat(s.subrange(0, 8), s.subrange(8, 16));
        lemma_bits_value_bound(s.subrange(0, 16));
        assert(humidity_tenths as int == humidity_tenths_of(s));
        // Temperature magnitude: the low 7 bits of field 3, then field 4.
        assert((v3 & 0x7f) == v3 % 128) by (bit_vector);
        assert(s.subrange(16, 24) =~= s.subrange(16, 17) + s.subrange(17, 24));
        lemma_bits_value_concat(s.subrange(16, 17), s.subrange(17, 24));
        assert(s.subrange(16, 17).drop_last() =~= Seq::<u8>::empty());
        assert(s.subrange(16, 17).len() == 1);
        assert(s.subrange(16, 17).last() == s[16]);
        assert(bits_value(Seq::<u8>::empty()) == 0);
        assert(bits_value(s.subrange(16, 17)) == s[16]);
        lemma_bits_value_bound(s.subrange(17, 24));
        assert(is_bit(s[16]));
        vstd::arithmetic::div_mod::lemma_fundamental_div_mod_converse(
            v3 as int,
            128,
            s[16] as int,
            bits_value(s.subrange(17, 24)),
        );
        assert((v3 % 128) as int == bits_value(s.subrange(17, 24)));
        assert(s.subrange(17, 32) =~= s.subrange(17, 24) + s.subrange(24, 32));
        lemma_bits_value_concat(s.subrange(17, 24), s.subrange(24, 32));
        lemma_bits_value_bound(s.subrange(17, 32));
        assert(temperature_magnitude_tenths as int == temp_magnitude_tenths_of(s));
    }
    Ok(
        Measure {
            humidity_tenths,
            temperature_negative,
            temperature_magnitude_tenths,
        },
    )
}

/// Retrieves a single measure through the legacy unbounded acquisition
/// path.  Each edge wait busy-polls with no time limit, so a silent or
/// absent sensor keeps this call blocked (it gives up only once the
/// microsecond clock reaches the end of its range).  Prefer
/// [`measure_once_timeout`].
pub fn measure_once<P: SensorPin>(pin: &mut P) -> (r: Result<Measure, MeasureError>)
    requires
        0 <= old(pin).now_us_spec() <= u64::MAX as int,
    ensures
        forall|t: int| #[trigger] final(pin).line_level(t) == old(pin).line_level(t),
        0 <= final(pin).now_us_spec() <= u64::MAX as int,
        old(pin).now_us_spec() <= final(pin).now_us_spec(),
        match r {
            Ok(m) => exists|bits: Seq<u8>|
                {
                    &&& #[trigger] legacy_acquisition(
                        old(pin),
                        old(pin).now_us_spec(),
                        bits,
                        final(pin).now_us_spec(),
                    )
                    &&& frame_ok(bits)
                    &&& checksum_matches(bits)
                    &&& decode_spec(bits) == Ok::<Measure, ProcessResponseError>(m)
                },
            Err(MeasureError::ChecksumError) => exists|bits: Seq<u8>|
                {
                    &&& #[trigger] legacy_acquisition(
                        old(pin),
                        old(pin).now_us_spec(),
                        bits,
                        final(pin).now_us_spec(),
                    )
                    &&& frame_ok(bits)
                    &&& !checksum_matches(bits)
                },
            Err(MeasureError::MeasureTimeoutError) => final(pin).now_us_spec()
                == u64::MAX as int,
            Err(MeasureError::MeasureError) => false,
        },
{
    let bits = match read_bits(pin) {
        Ok(b) => b,
        Err(e) => {
            return Err(MeasureError::from(e));
        },
    };
    match process_response(bits) {
        Ok(m) => {
            proof {
                assert(legacy_acquisition(
                    old(pin),
                    old(pin).now_us_spec(),
                    bits@,
                    final(pin).now_us_spec(),
                ) && frame_ok(bits@) && checksum_matches(bits@) && decode_spec(bits@) == Ok::<
                    Measure,
                    ProcessResponseError,
                >(m));
            }
            Ok(m)
        },
        Err(e) => {
            proof {
                assert(legacy_acquisition(
                    old(pin),
                    old(pin).now_us_spec(),
                    bits@,
                    final(pin).now_us_spec(),
                ) && frame_ok(bits@) && !checksum_matches(bits@));
                assert(e == ProcessResponseError::InvalidChecksumError);
            }
            Err(MeasureError::from(e))
        },
    }
}

/// Retrieves a single measure from the sensor connected to the pin, with
/// every edge wait bounded: a silent or disconnected sensor yields a
/// timeout failure after at most [`ACQUISITION_BOUND_US`] microseconds of
/// modelled time instead of blocking.
pub fn measure_once_timeout<P: SensorPin>(pin: &mut P) -> (r: Result<Measure, MeasureError>)
    requires
        0 <= old(pin).now_us_spec(),
        old(pin).now_us_spec() + ACQUISITION_BOUND_US as int + 110 <= u64::MAX as int,
    ensures
        forall|t: int| #[trigger] final(pin).line_level(t) == old(pin).line_level(t),
        0 <= final(pin).now_us_spec() <= u64::MAX as int,
        old(pin).now_us_spec() <= final(pin).now_us_spec(),
        final(pin).now_us_spec() <= old(pin).now_us_spec() + ACQUISITION_BOUND_US as int,
        match r {
            Ok(m) => acquisition_from_line(old(pin), old(pin).now_us_spec()) matches Some(pair)
                && frame_ok(pair.0) && checksum_matches(pair.0) && decode_spec(pair.0) == Ok::<
                Measure,
                ProcessResponseError,
            >(m),
            Err(MeasureError::ChecksumError) => acquisition_from_line(
                old(pin),
                old(pin).now_us_spec(),
            ) matches Some(pair) && frame_ok(pair.0) && !checksum_matches(pair.0),
            Err(MeasureError::MeasureTimeoutError) => acquisition_from_line(
                old(pin),
                old(pin).now_us_spec(),
            ) is None,
            Err(MeasureError::MeasureError) => false,
        },
{
    let bits = match read_bits_timeout(pin) {
        Ok(b) => b,
        Err(e) => {
            return Err(MeasureError::from(e));
        },
    };
    match process_response(bits) {
        Ok(m) => {
            proof {
                assert(frame_ok(bits@) && checksum_matches(bits@) && decode_spec(bits@) == Ok::<
                    Measure,
                    ProcessResponseError,
                >(m));
            }
            Ok(m)
        },
        Err(e) => {
            proof {
                assert(frame_ok(bits@) && !checksum_matches(bits@));
                assert(e == ProcessResponseError::InvalidChecksumError);
            }
            Err(MeasureError::from(e))
        },
    }
}

/// Every frame whose checksum field equals the wrapping 8-bit sum of its
/// four data fields decodes successfully, to exactly the humidity and
/// sign-magnitude temperature arithmetic of the wire format.
pub proof fn lemma_valid_frame_decodes(s: Seq<u8>)
    requires
        frame_ok(s),
        checksum_matches(s),
    ensures
        decode_spec(s) matches Ok(m) && {
            &&& m.humidity_tenths as int == humidity_tenths_of(s)
            &&& m.temperature_negative == temp_negative_of(s)
            &&& m.temperature_magnitude_tenths as int == temp_magnitude_tenths_of(s)
        },
{
    assert forall|i: int| 0 <= i < s.subrange(0, 16).len() implies is_bit(
        #[trigger] s.subrange(0, 16)[i],
    ) by {
        assert(s.subrange(0, 16)[i] == s[i]);
    }
    lemma_bits_value_bound(s.subrange(0, 16));
    assert forall|i: int| 0 <= i < s.subrange(17, 32).len() implies is_bit(
        #[trigger] s.subrange(17, 32)[i],
    ) by {
        assert(s.subrange(17, 32)[i] == s[17 + i]);
    }
    lemma_bits_value_bound(s.subrange(17, 32));
    lemma2_to64();
}

/// Altering the checksum field of a checksum-valid frame, while keeping
/// the four data fields, always makes decoding fail with a checksum
/// mismatch: the wrapping sum depends on the first 32 bits alone.
pub proof fn lemma_checksum_tamper(s1: Seq<u8>, s2: Seq<u8>)
    requires
        frame_ok(s1),
        frame_ok(s2),
        checksum_matches(s1),
        s2.subrange(0, 32) == s1.subrange(0, 32),
        field_value(s2, 4) != field_value(s1, 4),
    ensures
        !checksum_matches(s2),
        decode_spec(s2) == Err::<Measure, ProcessResponseError>(
            ProcessResponseError::InvalidChecksumError,
        ),
{
    assert forall|k: int| 0 <= k < 4 implies field_value(s2, k) == field_value(s1, k) by {
        assert(s2.subrange(8 * k, 8 * k + 8) =~= s1.subrange(8 * k, 8 * k + 8)) by {
            assert forall|i: int| 0 <= i < 8 implies #[trigger] s2.subrange(8 * k, 8 * k + 8)[i]
                == s1.subrange(8 * k, 8 * k + 8)[i] by {
                assert(s2.subrange(8 * k, 8 * k + 8)[i] == s2.subrange(0, 32)[8 * k + i]);
                assert(s1.subrange(8 * k, 8 * k + 8)[i] == s1.subrange(0, 32)[8 * k + i]);
            }
        }
    }
}

/// Setting the sign bit of a frame, all other bits unchanged, negates the
/// decoded temperature and leaves humidity and magnitude untouched.
pub proof fn lemma_sign_bit_flip(s1: Seq<u8>, s2: Seq<u8>)
    requires
        frame_ok(s1),
        frame_ok(s2),
        forall|i: int| 0 <= i < 40 && i != 16 ==> s1[i] == s2[i],
        s1[16] == 0,
        s2[16] == 1,
    ensures
        !temp_negative_of(s1),
        temp_negative_of(s2),
        temp_magnitude_tenths_of(s2) == temp_magnitude_tenths_of(s1),
        humidity_tenths_of(s2) == humidity_tenths_of(s1),
{
    assert(s2.subrange(17, 32) =~= s1.subrange(17, 32));
    assert(s2.subrange(0, 16) =~= s1.subrange(0, 16));
}

/// Decoding is a pure function of the frame: any two results of decoding
/// the same bit sequence are identical.
pub proof fn lemma_decode_deterministic(
    s: Seq<u8>,
    r1: Result<Measure, ProcessResponseError>,
    r2: Result<Measure, ProcessResponseError>,
)
    requires
        r1 == decode_spec(s),
        r2 == decode_spec(s),
    ensures
        r1 == r2,
{
}

} // verus!
