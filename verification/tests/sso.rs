use base64::Engine;
use edu_sync_cli::extract_token_from_sso_url;
use edu_sync_cli::sso::{parse_token, sso_launch_url, SsoTokenError};

const TOKEN: &str = "0123456789abcdefABCDEF0123456789";

fn encode(text: &str) -> String {
    base64::prelude::BASE64_STANDARD.encode(text)
}

#[test]
fn sso_token_from_moodlemobile_url() {
    let url = format!("moodlemobile://token={}", encode(&format!("sig:::{}", TOKEN)));
    let token = extract_token_from_sso_url(&url).unwrap();
    assert_eq!(token.bytes.len(), 16);
    assert_eq!(token.bytes[0], 0x01);
    assert_eq!(token.bytes[7], 0xef);
    assert_eq!(token.bytes[8], 0xAB);
}

#[test]
fn sso_token_with_private_token_and_trailing_parameters() {
    let url = format!(
        "moodledl://token={}&other=1#frag",
        encode(&format!("sig:::{}:::private", TOKEN))
    );
    let token = extract_token_from_sso_url(&url).unwrap();
    assert_eq!(token.bytes, parse_token(TOKEN).unwrap().bytes);
}

#[test]
fn sso_token_before_fragment() {
    let url = format!(
        "https://example.org/launch?x=1&token={}#end",
        encode(&format!("signature:::{}:::private:::more", TOKEN))
    );
    let token = extract_token_from_sso_url(&url).unwrap();
    assert_eq!(token.bytes, parse_token(TOKEN).unwrap().bytes);
}

#[test]
fn sso_missing_token_parameter() {
    let err = extract_token_from_sso_url("moodlemobile://nothing").unwrap_err();
    assert!(matches!(err, SsoTokenError::MissingTokenParameter));
    assert_eq!(err.message(), "Invalid SSO URL: missing 'token=' parameter");
}

#[test]
fn sso_invalid_base64() {
    let err = extract_token_from_sso_url("moodlemobile://token=!!!").unwrap_err();
    let expected = base64::prelude::BASE64_STANDARD.decode("!!!").unwrap_err().to_string();
    match &err {
        SsoTokenError::InvalidBase64(m) => assert_eq!(m, &expected),
        _ => panic!("expected an invalid Base64 error"),
    }
    assert_eq!(err.message(), format!("Failed to decode Base64: {}", expected));
}

#[test]
fn sso_invalid_utf8() {
    let b64 = base64::prelude::BASE64_STANDARD.encode([0xffu8, 0xfe, 0x3a]);
    let err = extract_token_from_sso_url(&format!("moodlemobile://token={}", b64)).unwrap_err();
    let expected = String::from_utf8(vec![0xffu8, 0xfe, 0x3a]).unwrap_err().to_string();
    match &err {
        SsoTokenError::InvalidUtf8(m) => assert_eq!(m, &expected),
        _ => panic!("expected an invalid UTF-8 error"),
    }
    assert_eq!(err.message(), format!("Invalid UTF-8 in decoded token: {}", expected));
}

#[test]
fn sso_invalid_format() {
    let url = format!("moodlemobile://token={}", encode("no separator"));
    let err = extract_token_from_sso_url(&url).unwrap_err();
    match &err {
        SsoTokenError::InvalidFormat(text) => assert_eq!(text, "no separator"),
        other => panic!("unexpected {:?}", other),
    }
    assert_eq!(
        err.message(),
        "Invalid token format. Expected 'SIGNATURE:::TOKEN[:::PRIVATE_TOKEN]', got: no separator"
    );
}

#[test]
fn sso_invalid_length() {
    let url = format!("moodlemobile://token={}", encode("sig:::abc"));
    let err = extract_token_from_sso_url(&url).unwrap_err();
    match &err {
        SsoTokenError::InvalidLength(n, part) => {
            assert_eq!(*n, 3);
            assert_eq!(part, "abc");
        }
        other => panic!("unexpected {:?}", other),
    }
    assert_eq!(
        err.message(),
        "Invalid token length. Expected 32 hex chars, got 3 (value: abc)"
    );
}

#[test]
fn sso_length_counts_bytes() {
    // 16 two-byte characters: 32 bytes but not hexadecimal.
    let part = "é".repeat(16);
    let url = format!("moodlemobile://token={}", encode(&format!("sig:::{}", part)));
    let err = extract_token_from_sso_url(&url).unwrap_err();
    assert!(matches!(err, SsoTokenError::InvalidToken(_)));
}

#[test]
fn sso_invalid_token_characters() {
    let url = format!(
        "moodlemobile://token={}",
        encode("sig:::0123456789abcdefABCDEF012345678g")
    );
    let err = extract_token_from_sso_url(&url).unwrap_err();
    assert!(matches!(err, SsoTokenError::InvalidToken(_)));
}

#[test]
fn parse_token_accepts_exactly_32_hex_digits() {
    assert!(parse_token(TOKEN).is_some());
    assert!(parse_token("0123").is_none());
    assert!(parse_token(&format!("{}0", TOKEN)).is_none());
    assert_eq!(parse_token("ff000000000000000000000000000001").unwrap().bytes[15], 1);
}

#[test]
fn sso_launch_url_strips_trailing_slashes() {
    assert_eq!(
        sso_launch_url("https://moodle.example.com//"),
        "https://moodle.example.com/admin/tool/mobile/launch.php?service=moodle_mobile_app&passport=12345&urlscheme=moodlemobile"
    );
}
