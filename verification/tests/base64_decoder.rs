use base64_rs::base64_decoder::Base64Decoder;
use base64_rs::base64_decoder::DecodeError;
use base64_rs::base64_encoder::Base64Encoder;

#[test]
fn base64_decoder_it_works_single_padding() {
    let text = "bGlnaHQgd29yay4=".to_string();

    let enc = Base64Decoder::new(&text);
    let encoded = enc.decode().unwrap();

    assert_eq!(encoded, "light work.".to_string());
}

#[test]
fn base64_decoder_it_works_double_padding() {
    let text = "bGlnaHQgd29yaw==".to_string();

    let enc = Base64Decoder::new(&text);
    let encoded = enc.decode().unwrap();

    assert_eq!(encoded, "light work".to_string());
}

#[test]
fn base64_decoder_it_works_no_padding() {
    let text = "bGlnaHQgd29y".to_string();

    let enc = Base64Decoder::new(&text);
    let encoded = enc.decode().unwrap();

    assert_eq!(encoded, "light wor".to_string());
}

#[test]
fn decode_empty_input_gives_empty_output() {
    let dec = Base64Decoder::new("");
    assert_eq!(dec.decode().unwrap(), "".to_string());
}

#[test]
fn decode_rejects_character_outside_alphabet() {
    let dec = Base64Decoder::new("bGln!HQg");
    assert_eq!(dec.decode(), Err(DecodeError::InvalidChar));
}

#[test]
fn decode_rejects_non_ascii_character() {
    let dec = Base64Decoder::new("bGé=");
    assert_eq!(dec.decode(), Err(DecodeError::InvalidChar));
}

#[test]
fn decode_rejects_length_not_multiple_of_four() {
    let dec = Base64Decoder::new("bGl");
    assert_eq!(dec.decode(), Err(DecodeError::InvalidLength));
}

#[test]
fn decode_rejects_bytes_that_are_not_text() {
    let dec = Base64Decoder::new("/w==");
    assert_eq!(dec.decode(), Err(DecodeError::InvalidUtf8));
}

#[test]
fn decode_bytes_accepts_non_text_payload() {
    let dec = Base64Decoder::new("/wCA");
    assert_eq!(dec.decode_bytes().unwrap(), vec![255, 0, 128]);
}

#[test]
fn decode_bytes_single_byte() {
    let dec = Base64Decoder::new("Zg==");
    assert_eq!(dec.decode_bytes().unwrap(), vec![102]);
}

#[test]
fn round_trip_over_all_group_shapes() {
    let payload = "pack my box with five dozen liquor jugs";
    for len in 0..payload.len() {
        let bytes = &payload.as_bytes()[..len];
        let enc = Base64Encoder::new(bytes);
        let text = enc.encode();
        let dec = Base64Decoder::new(&text);
        assert_eq!(dec.decode_bytes().unwrap(), bytes.to_vec());
        assert_eq!(dec.decode().unwrap().as_bytes(), bytes);
    }
}

#[test]
fn round_trip_over_arbitrary_bytes() {
    let bytes: Vec<u8> = (0..=255u8).collect();
    let enc = Base64Encoder::new(&bytes);
    let text = enc.encode();
    let dec = Base64Decoder::new(&text);
    assert_eq!(dec.decode_bytes().unwrap(), bytes);
}
