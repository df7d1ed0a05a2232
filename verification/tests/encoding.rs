use crawler::encoding::base64_decode;
use crawler::encoding::base64_encode;
use crawler::encoding::url_encode;
use crawler::encoding::DecodeError;

#[test]
fn encode_examples() {
    assert_eq!(base64_encode(b""), "");
    assert_eq!(base64_encode(b"Glados"), "R2xhZG9z");
    assert_eq!(base64_encode(b"Chell"), "Q2hlbGw=");
    assert_eq!(base64_encode(b"The cake is a lie."), "VGhlIGNha2UgaXMgYSBsaWUu");
}

#[test]
fn round_trip_examples() {
    let cases: [&[u8]; 4] = [b"", b"Glados", b"Chell", b"The cake is a lie."];
    for &c in &cases {
        let enc = base64_encode(c);
        let dec = base64_decode(&enc).unwrap();
        assert_eq!(dec, c);
    }
}

#[test]
fn round_trip_all_tail_lengths() {
    let data: &[u8] = &[0, 1, 2, 127, 128, 255, 61, 43, 47];
    for len in 0..=data.len() {
        let enc = base64_encode(&data[..len]);
        assert_eq!(base64_decode(&enc).unwrap(), &data[..len]);
    }
}

#[test]
fn decode_ignores_whitespace() {
    assert_eq!(base64_decode("R2xh\nZG9z").unwrap(), b"Glados");
    assert_eq!(base64_decode(" \t\r\n").unwrap(), b"");
}

#[test]
fn decode_length_error() {
    assert!(matches!(base64_decode("QUJ"), Err(DecodeError::InvalidLength)));
    assert!(matches!(base64_decode("A"), Err(DecodeError::InvalidLength)));
}

#[test]
fn decode_padding_errors() {
    assert!(matches!(base64_decode("A==B"), Err(DecodeError::InvalidPadding)));
    assert!(matches!(base64_decode("A==="), Err(DecodeError::InvalidPadding)));
    assert!(matches!(base64_decode("===="), Err(DecodeError::InvalidPadding)));
}

#[test]
fn decode_character_error() {
    assert_eq!(
        base64_decode("QU!B"),
        Err(DecodeError::InvalidCharacter { ch: '!', index: 2 })
    );
}

#[test]
fn url_encode_examples() {
    assert_eq!(url_encode("abc-XYZ_0.9~"), "abc-XYZ_0.9~");
    assert_eq!(
        url_encode("https://example.com/foo"),
        "https%3A%2F%2Fexample.com%2Ffoo"
    );
    assert_eq!(url_encode(" "), "%20");
}
