use base64_rs::base64_encoder::Base64Encoder;

#[test]
fn base64_encoder_it_works_single_padding() {
    let text = "light work.".to_string();

    let enc = Base64Encoder::new(&text.as_bytes());
    let encoded = enc.encode();

    assert_eq!(encoded, "bGlnaHQgd29yay4=".to_string());
}

#[test]
fn base64_encoder_it_works_double_padding() {
    let text = "light work".to_string();

    let enc = Base64Encoder::new(&text.as_bytes());
    let encoded = enc.encode();

    assert_eq!(encoded, "bGlnaHQgd29yaw==".to_string());
}

#[test]
fn base64_encoder_it_works_no_padding() {
    let text = "light wor".to_string();

    let enc = Base64Encoder::new(&text.as_bytes());
    let encoded = enc.encode();

    assert_eq!(encoded, "bGlnaHQgd29y".to_string());
}

#[test]
fn encode_empty_input_gives_empty_output() {
    let enc = Base64Encoder::new(&[]);
    assert_eq!(enc.encode(), "".to_string());
}

#[test]
fn encode_single_byte() {
    let enc = Base64Encoder::new(&[102]);
    assert_eq!(enc.encode(), "Zg==".to_string());
}

#[test]
fn encode_two_bytes() {
    let enc = Base64Encoder::new(&[102, 111]);
    assert_eq!(enc.encode(), "Zm8=".to_string());
}

#[test]
fn encode_three_bytes() {
    let enc = Base64Encoder::new(&[77, 97, 110]);
    assert_eq!(enc.encode(), "TWFu".to_string());
}

#[test]
fn encode_non_text_bytes() {
    let enc = Base64Encoder::new(&[255, 0, 128]);
    assert_eq!(enc.encode(), "/wCA".to_string());
}

#[test]
fn encode_length_is_four_per_started_group() {
    for len in 0..32usize {
        let bytes = vec![7u8; len];
        let enc = Base64Encoder::new(&bytes);
        let expected = if len == 0 { 0 } else { 4 * ((len + 2) / 3) };
        assert_eq!(enc.encode().len(), expected);
    }
}

#[test]
fn encode_padding_count_follows_input_length() {
    for len in 0..32usize {
        let bytes = vec![65u8; len];
        let enc = Base64Encoder::new(&bytes);
        let text = enc.encode();
        let pads = text.chars().rev().take_while(|c| *c == '=').count();
        assert_eq!(pads, (3 - len % 3) % 3);
    }
}

#[test]
fn encode_output_uses_only_alphabet_and_padding() {
    let bytes: Vec<u8> = (0..=255u8).collect();
    let enc = Base64Encoder::new(&bytes);
    for c in enc.encode().chars() {
        assert!(c.is_ascii_alphanumeric() || c == '+' || c == '/' || c == '=');
    }
}
