use tessera::shell_integration::base64::encode_base64;
use tessera::shell_integration::event::{decode_base64, Base64DecodeFailure};

fn failure_of(encoded: &str) -> Base64DecodeFailure {
    decode_base64(encoded).unwrap_err().failure
}

#[test]
fn encodes_standard_examples() {
    assert_eq!(encode_base64(b""), "");
    assert_eq!(encode_base64(b"f"), "Zg==");
    assert_eq!(encode_base64(b"fo"), "Zm8=");
    assert_eq!(encode_base64(b"foo"), "Zm9v");
    assert_eq!(encode_base64(b"foob"), "Zm9vYg==");
    assert_eq!(encode_base64(b"fooba"), "Zm9vYmE=");
    assert_eq!(encode_base64(b"foobar"), "Zm9vYmFy");
    assert_eq!(encode_base64(&[0xfb, 0xff]), "+/8=");
}

#[test]
fn decodes_standard_examples() {
    assert_eq!(decode_base64("").unwrap(), Vec::<u8>::new());
    assert_eq!(decode_base64("Zg==").unwrap(), b"f".to_vec());
    assert_eq!(decode_base64("Zm8=").unwrap(), b"fo".to_vec());
    assert_eq!(decode_base64("Zm9vYmFy").unwrap(), b"foobar".to_vec());
    assert_eq!(decode_base64("+/8=").unwrap(), vec![0xfb, 0xff]);
}

#[test]
fn each_decode_failure_has_its_input() {
    assert_eq!(failure_of("abc"), Base64DecodeFailure::LengthNotMultipleOfFour);
    assert_eq!(failure_of("ab!d"), Base64DecodeFailure::InvalidCharacter);
    assert_eq!(failure_of("éab"), Base64DecodeFailure::InvalidCharacter);
    assert_eq!(failure_of("=abc"), Base64DecodeFailure::UnexpectedPadding);
    assert_eq!(failure_of("ab=c"), Base64DecodeFailure::InvalidPadding);
    assert_eq!(failure_of("ab==abcd"), Base64DecodeFailure::PaddingNotFinal);
    assert_eq!(failure_of("abc=abcd"), Base64DecodeFailure::PaddingNotFinal);
}

#[test]
fn decode_failures_have_messages() {
    assert_eq!(
        decode_base64("abc").unwrap_err().message(),
        "base64 length must be a multiple of 4"
    );
    assert_eq!(decode_base64("ab!d").unwrap_err().message(), "invalid base64 character");
    assert_eq!(decode_base64("=abc").unwrap_err().message(), "unexpected base64 padding");
    assert_eq!(decode_base64("ab=c").unwrap_err().message(), "invalid base64 padding");
    assert_eq!(
        decode_base64("ab==abcd").unwrap_err().message(),
        "base64 padding must be in the final quartet"
    );
}

#[test]
fn base64_round_trip_on_many_inputs() {
    let mut state: u32 = 12345;
    for len in 0..200usize {
        let mut bytes = Vec::with_capacity(len);
        for _ in 0..len {
            state = state.wrapping_mul(1103515245).wrapping_add(12345);
            bytes.push((state >> 16) as u8);
        }
        let encoded = encode_base64(&bytes);
        assert_eq!(encoded.len(), len.div_ceil(3) * 4);
        assert_eq!(decode_base64(&encoded).unwrap(), bytes);
    }
}
