//! Authentication tokens, and their extraction from the redirect address
//! that a Moodle site sends at the end of a single sign-on.
//!
//! The address has the form `moodlemobile://token=BASE64` (or
//! `moodledl://token=BASE64`); the Base64 text decodes to
//! `SIGNATURE:::TOKEN` or `SIGNATURE:::TOKEN:::PRIVATE_TOKEN`, where TOKEN
//! is 32 hexadecimal digits.

use vstd::prelude::*;
use vstd::string::*;
use vstd::utf8::{
    encode_utf8, encode_utf8_decode_utf8, encode_utf8_valid_utf8, is_ascii_chars,
    is_ascii_chars_encode_utf8,
};
use base64::Engine;
use crate::text::{
    contains, lemma_split_first_absent, lemma_split_first_at_start, lemma_split_first_concat,
    lemma_split_first_keeps_head, lemma_split_second_concat, match_at, chars_of, decimal, push_char, push_chars, push_decimal, split_first, split_first_chars,
    split_second, split_second_chars, string_of_chars,
};

verus! {

// ---------------------------------------------------------------------
// Trusted items
// ---------------------------------------------------------------------

/// What `BASE64_STANDARD.decode` of the `base64` crate returns for the bytes
/// of a text: the decoded bytes, or `None` where it reports an error.  The
/// standard alphabet with canonical padding; a function of the text alone.
pub uninterp spec fn base64_standard_decode(text: Seq<char>) -> Option<Seq<u8>>;

/// What the `Display` of the `base64::DecodeError` that
/// `BASE64_STANDARD.decode` reports for the bytes of a text writes (such as
/// "Invalid symbol 33, offset 0."); a function of the text alone.
pub uninterp spec fn base64_error_text(text: Seq<char>) -> Seq<char>;

/// Calls `Engine::decode` of `base64::prelude::BASE64_STANDARD` on the bytes
/// of `text`.  Success and the bytes are named by [`base64_standard_decode`];
/// on failure the error's `Display` text comes back, named by
/// [`base64_error_text`].
#[verifier::external_body]
fn decode_base64(text: &str) -> (r: Result<Vec<u8>, String>)
    ensures
        r matches Ok(b) ==> base64_standard_decode(text@) == Some(b@),
        r is Err ==> base64_standard_decode(text@) is None,
        r matches Err(m) ==> m@ == base64_error_text(text@),
{
    match base64::prelude::BASE64_STANDARD.decode(text) {
        Ok(bytes) => Ok(bytes),
        Err(e) => Err(e.to_string()),
    }
}

/// What the `Display` of the `FromUtf8Error` that `String::from_utf8`
/// reports for some bytes writes (such as "invalid utf-8 sequence of 1
/// bytes from index 0"); a function of the bytes alone.
pub uninterp spec fn utf8_error_text(bytes: Seq<u8>) -> Seq<char>;

/// Calls `String::from_utf8`: it succeeds exactly on valid UTF-8 and then
/// holds the decoded characters; on failure the error's `Display` text comes
/// back, named by [`utf8_error_text`].
#[verifier::external_body]
fn utf8_to_string(bytes: Vec<u8>) -> (r: Result<String, String>)
    ensures
        r is Ok <==> vstd::utf8::valid_utf8(bytes@),
        r matches Ok(s) ==> s@ == vstd::utf8::decode_utf8(bytes@),
        r matches Err(m) ==> m@ == utf8_error_text(bytes@),
{
    match String::from_utf8(bytes) {
        Ok(s) => Ok(s),
        Err(e) => Err(e.to_string()),
    }
}

// ---------------------------------------------------------------------
// Tokens
// ---------------------------------------------------------------------

/// A Moodle web service token: 16 bytes, written as 32 hexadecimal digits.
#[derive(Debug)]
pub struct Token {
    pub bytes: Vec<u8>,
}

/// A hexadecimal digit, in either case.
pub open spec fn is_hex_digit(c: char) -> bool {
    ('0' <= c && c <= '9') || ('a' <= c && c <= 'f') || ('A' <= c && c <= 'F')
}

/// The value of a hexadecimal digit.
pub open spec fn hex_value(c: char) -> nat {
    if '0' <= c && c <= '9' {
        (c as nat - '0' as nat) as nat
    } else if 'a' <= c && c <= 'f' {
        (c as nat - 'a' as nat + 10) as nat
    } else {
        (c as nat - 'A' as nat + 10) as nat
    }
}

/// The texts that are tokens: exactly 32 hexadecimal digits.
pub open spec fn is_token_text(s: Seq<char>) -> bool {
    s.len() == 32 && forall|i: int| 0 <= i < 32 ==> is_hex_digit(s[i])
}

/// The bytes that a token text stands for, two digits per byte, high digit
/// first.
pub open spec fn token_bytes(s: Seq<char>) -> Seq<u8> {
    Seq::new(16, |i: int| (16 * hex_value(s[2 * i]) + hex_value(s[2 * i + 1])) as u8)
}

fn hex_digit_value(c: char) -> (r: Option<u8>)
    ensures
        r is Some <==> is_hex_digit(c),
        r matches Some(v) ==> v == hex_value(c) && v < 16,
{
    if '0' <= c && c <= '9' {
        Some(((c as u32) - ('0' as u32)) as u8)
    } else if 'a' <= c && c <= 'f' {
        Some(((c as u32) - ('a' as u32) + 10) as u8)
    } else if 'A' <= c && c <= 'F' {
        Some(((c as u32) - ('A' as u32) + 10) as u8)
    } else {
        None
    }
}

/// Parses a token from its 32 hexadecimal digits.
pub fn parse_token(s: &str) -> (r: Option<Token>)
    ensures
        r is Some <==> is_token_text(s@),
        r matches Some(t) ==> t.bytes@ == token_bytes(s@),
{
    let cs = chars_of(s);
    if cs.len() != 32 {
        return None;
    }
    let mut bytes: Vec<u8> = Vec::new();
    let mut i: usize = 0;
    while i < 16
        invariant
            i <= 16,
            cs@ == s@,
            cs@.len() == 32,
            bytes@.len() == i,
            forall|j: int| 0 <= j < 2 * i ==> is_hex_digit(cs@[j]),
            forall|j: int| 0 <= j < i ==> bytes@[j] == token_bytes(cs@)[j],
        decreases 16 - i,
    {
        let hi = hex_digit_value(cs[2 * i]);
        let lo = hex_digit_value(cs[2 * i + 1]);
        match (hi, lo) {
            (Some(h), Some(l)) => {
                bytes.push(16 * h + l);
            },
            _ => {
                assert(!is_hex_digit(cs@[2 * i as int]) || !is_hex_digit(cs@[2 * i + 1]));
                assert(!is_token_text(s@)) by {
                    if is_token_text(s@) {
                        assert(is_hex_digit(s@[2 * i as int]));
                        assert(is_hex_digit(s@[2 * i + 1]));
                    }
                }
                return None;
            },
        }
        i = i + 1;
    }
    assert(bytes@ == token_bytes(cs@));
    Some(Token { bytes })
}

// ---------------------------------------------------------------------
// Extraction from the redirect address
// ---------------------------------------------------------------------

/// Why no token could be taken from a redirect address.
#[derive(Debug)]
pub enum SsoTokenError {
    /// The address has no `token=` parameter.
    MissingTokenParameter,
    /// The parameter is not Base64; the decoder's message.
    InvalidBase64(String),
    /// The decoded bytes are not UTF-8; the decoder's message.
    InvalidUtf8(String),
    /// The decoded text has no `:::` separator; the decoded text.
    InvalidFormat(String),
    /// The token part is not 32 bytes long; its length in bytes and the part.
    InvalidLength(usize, String),
    /// The token part is not hexadecimal; the part.
    InvalidToken(String),
}

/// The model of an [`SsoTokenError`].
pub enum SsoErrorView {
    MissingTokenParameter,
    InvalidBase64(Seq<char>),
    InvalidUtf8(Seq<char>),
    InvalidFormat(Seq<char>),
    InvalidLength(nat, Seq<char>),
    InvalidToken(Seq<char>),
}

impl View for SsoTokenError {
    type V = SsoErrorView;

    open spec fn view(&self) -> SsoErrorView {
        match self {
            SsoTokenError::MissingTokenParameter => SsoErrorView::MissingTokenParameter,
            SsoTokenError::InvalidBase64(m) => SsoErrorView::InvalidBase64(m@),
            SsoTokenError::InvalidUtf8(m) => SsoErrorView::InvalidUtf8(m@),
            SsoTokenError::InvalidFormat(s) => SsoErrorView::InvalidFormat(s@),
            SsoTokenError::InvalidLength(n, s) => SsoErrorView::InvalidLength(*n as nat, s@),
            SsoTokenError::InvalidToken(s) => SsoErrorView::InvalidToken(s@),
        }
    }
}

/// The view of the outcome of an extraction: the token's bytes or the error.
pub open spec fn outcome_view(r: Result<Token, SsoTokenError>) -> Result<Seq<u8>, SsoErrorView> {
    match r {
        Ok(t) => Ok(t.bytes@),
        Err(e) => Err(e@),
    }
}

/// The Base64 text in a redirect address: what follows the first `token=`,
/// up to the next `token=`, `&` or `#`.
pub open spec fn base64_part(url: Seq<char>) -> Option<Seq<char>> {
    match split_second(url, "token="@) {
        Some(after) => Some(split_first(split_first(after, "&"@), "#"@)),
        None => None,
    }
}

/// The token that a decoded text holds: the part after the first `:::`, up
/// to the next `:::`; it must be 32 bytes long and hexadecimal.
pub open spec fn token_from_text(text: Seq<char>) -> Result<Seq<u8>, SsoErrorView> {
    match split_second(text, ":::"@) {
        None => Err(SsoErrorView::InvalidFormat(text)),
        Some(part) => if encode_utf8(part).len() != 32 {
            Err(SsoErrorView::InvalidLength(encode_utf8(part).len(), part))
        } else if !is_token_text(part) {
            Err(SsoErrorView::InvalidToken(part))
        } else {
            Ok(token_bytes(part))
        },
    }
}

/// The token that decoded bytes hold: they must be UTF-8, and their text
/// must hold a token as [`token_from_text`] says.
pub open spec fn token_from_bytes(decoded: Seq<u8>) -> Result<Seq<u8>, SsoErrorView> {
    if !vstd::utf8::valid_utf8(decoded) {
        Err(SsoErrorView::InvalidUtf8(utf8_error_text(decoded)))
    } else {
        token_from_text(vstd::utf8::decode_utf8(decoded))
    }
}

/// The outcome of extracting a token from a redirect address.
pub open spec fn sso_outcome(url: Seq<char>) -> Result<Seq<u8>, SsoErrorView> {
    match base64_part(url) {
        None => Err(SsoErrorView::MissingTokenParameter),
        Some(b64) => match base64_standard_decode(b64) {
            None => Err(SsoErrorView::InvalidBase64(base64_error_text(b64))),
            Some(decoded) => token_from_bytes(decoded),
        },
    }
}

/// The Base64 text of a redirect address, as [`base64_part`] says.
pub fn sso_base64_part(sso_url: &str) -> (r: Option<String>)
    ensures
        r matches Some(s) ==> base64_part(sso_url@) == Some(s@),
        r is None ==> base64_part(sso_url@) is None,
{
    let url = chars_of(sso_url);
    let key = chars_of("token=");
    let amp = chars_of("&");
    let hash = chars_of("#");
    match split_second_chars(&url, &key) {
        None => None,
        Some(after) => {
            let a = split_first_chars(&after, &amp);
            let b = split_first_chars(&a, &hash);
            Some(string_of_chars(&b, 0, b.len()))
        },
    }
}

/// The token held by the bytes that the Base64 text decodes to, as
/// [`token_from_bytes`] says.
pub fn token_from_decoded(decoded: Vec<u8>) -> (r: Result<Token, SsoTokenError>)
    ensures
        outcome_view(r) == token_from_bytes(decoded@),
{
    let text = match utf8_to_string(decoded) {
        Ok(t) => t,
        Err(msg) => {
            return Err(SsoTokenError::InvalidUtf8(msg));
        },
    };
    let tv = chars_of(text.as_str());
    let sep = chars_of(":::");
    match split_second_chars(&tv, &sep) {
        None => Err(SsoTokenError::InvalidFormat(text)),
        Some(part) => {
            let part_text = string_of_chars(&part, 0, part.len());
            assert(part@.subrange(0, part@.len() as int) == part@);
            let len = part_text.as_str().as_bytes().len();
            if len != 32 {
                Err(SsoTokenError::InvalidLength(len, part_text))
            } else {
                match parse_token(part_text.as_str()) {
                    Some(t) => Ok(t),
                    None => Err(SsoTokenError::InvalidToken(part_text)),
                }
            }
        },
    }
}

/// Extracts the token from a single sign-on redirect address, as
/// [`sso_outcome`] says.
pub fn extract_token_from_sso_url(sso_url: &str) -> (r: Result<Token, SsoTokenError>)
    ensures
        outcome_view(r) == sso_outcome(sso_url@),
{
    let b64 = match sso_base64_part(sso_url) {
        Some(b) => b,
        None => {
            return Err(SsoTokenError::MissingTokenParameter);
        },
    };
    let decoded = match decode_base64(b64.as_str()) {
        Ok(d) => d,
        Err(msg) => {
            return Err(SsoTokenError::InvalidBase64(msg));
        },
    };
    token_from_decoded(decoded)
}

// ---------------------------------------------------------------------
// What an extraction gives back
// ---------------------------------------------------------------------

/// A decoded text that carries a signature and a token:
/// `SIGNATURE:::TOKEN`, or `SIGNATURE:::TOKEN:::PRIVATE_TOKEN` when a
/// private token comes with it.
pub open spec fn signed_text(signature: Seq<char>, token: Seq<char>, private_token: Option<Seq<char>>) -> Seq<char> {
    match private_token {
        Some(p) => signature + ":::"@ + token + ":::"@ + p,
        None => signature + ":::"@ + token,
    }
}

/// The token is always the second part of the decoded text: a text
/// `SIGNATURE:::TOKEN` or `SIGNATURE:::TOKEN:::PRIVATE_TOKEN`, whose
/// signature holds no `:` and whose token is 32 hexadecimal digits, yields
/// the bytes of that token.
pub proof fn lemma_token_is_second_part(
    signature: Seq<char>,
    token: Seq<char>,
    private_token: Option<Seq<char>>,
)
    requires
        forall|i: int| 0 <= i < signature.len() ==> signature[i] != ':',
        is_token_text(token),
    ensures
        token_from_text(signed_text(signature, token, private_token)) == Ok::<Seq<u8>, SsoErrorView>(token_bytes(token)),
{
    reveal_strlit(":::");
    let sep = ":::"@;
    let rest = match private_token {
        Some(p) => token + sep + p,
        None => token,
    };
    let text = signature + sep + rest;
    assert(signed_text(signature, token, private_token) =~= text);
    assert forall|i: int| 0 <= i < signature.len() implies !match_at(text, sep, i) by {
        if match_at(text, sep, i) {
            assert(text.subrange(i, i + 3)[0] == text[i]);
        }
    }
    lemma_split_second_concat(signature, sep, rest);
    match private_token {
        Some(p) => {
            let tail = sep + p;
            assert(rest =~= token + tail);
            assert forall|i: int| 0 <= i < token.len() implies !match_at(token + tail, sep, i) by {
                if match_at(token + tail, sep, i) {
                    assert((token + tail).subrange(i, i + 3)[0] == (token + tail)[i]);
                }
            }
            lemma_split_first_concat(token, tail, sep);
            assert(tail.subrange(0, 3) =~= sep);
            lemma_split_first_at_start(tail, sep);
            assert(token + Seq::<char>::empty() =~= token);
        },
        None => {
            assert forall|i: int| !match_at(token, sep, i) by {
                if match_at(token, sep, i) {
                    assert(token.subrange(i, i + 3)[0] == token[i]);
                }
            }
            lemma_split_first_absent(token, sep);
        },
    }
    assert(is_ascii_chars(token));
    is_ascii_chars_encode_utf8(token);
}

/// `token=` starts at no position of `x` in `x + token= + y`, when `x`
/// does not hold it: no proper end of `token=` is a beginning of it.
proof fn lemma_key_not_before(x: Seq<char>, y: Seq<char>)
    requires
        !contains(x, "token="@),
    ensures
        forall|i: int| 0 <= i < x.len() ==> !match_at(x + "token="@ + y, "token="@, i),
{
    reveal_strlit("token=");
    let key = "token="@;
    let h = x + key + y;
    assert forall|i: int| 0 <= i < x.len() implies !match_at(h, key, i) by {
        if match_at(h, key, i) {
            if i + 6 <= x.len() {
                assert(x.subrange(i, i + 6) =~= h.subrange(i, i + 6));
                assert(match_at(x, key, i));
            } else {
                let k = x.len() - i;
                assert(h.subrange(i, i + 6)[k] == h[x.len() as int]);
                assert(h[x.len() as int] == key[0]);
            }
        }
    }
}

/// `p`, a single character, starts at no position of `x` in `x + y` when
/// `x` does not hold it.
proof fn lemma_char_not_before(x: Seq<char>, y: Seq<char>, p: Seq<char>)
    requires
        p.len() == 1,
        !contains(x, p),
    ensures
        forall|i: int| 0 <= i < x.len() ==> !match_at(x + y, p, i),
{
    assert forall|i: int| 0 <= i < x.len() implies !match_at(x + y, p, i) by {
        if match_at(x + y, p, i) {
            assert(x.subrange(i, i + 1) =~= (x + y).subrange(i, i + 1));
            assert(match_at(x, p, i));
        }
    }
}

/// The Base64 text of an address `PREFIX` + `token=` + `BASE64` + `TAIL` is
/// `BASE64`, where `PREFIX` holds no `token=`, `BASE64` holds none of
/// `token=`, `&` and `#`, and `TAIL` is empty or begins with `&` or `#`.
pub proof fn lemma_base64_part_of_address(prefix: Seq<char>, base64: Seq<char>, tail: Seq<char>)
    requires
        !contains(prefix, "token="@),
        !contains(base64, "token="@),
        !contains(base64, "&"@),
        !contains(base64, "#"@),
        tail.len() == 0 || tail[0] == '&' || tail[0] == '#',
    ensures
        base64_part(prefix + "token="@ + base64 + tail) == Some(base64),
{
    reveal_strlit("token=");
    reveal_strlit("&");
    reveal_strlit("#");
    let key = "token="@;
    let amp = "&"@;
    let hash = "#"@;
    let after = base64 + tail;
    assert(prefix + key + base64 + tail =~= prefix + key + after);
    lemma_key_not_before(prefix, after);
    lemma_split_second_concat(prefix, key, after);
    assert forall|i: int| 0 <= i < base64.len() implies !match_at(after, key, i) by {
        if match_at(after, key, i) {
            if i + 6 <= base64.len() {
                assert(base64.subrange(i, i + 6) =~= after.subrange(i, i + 6));
                assert(match_at(base64, key, i));
            } else {
                let k = base64.len() - i;
                assert(after.subrange(i, i + 6)[k] == after[base64.len() as int]);
                assert(after[base64.len() as int] == tail[0]);
            }
        }
    }
    lemma_split_first_concat(base64, tail, key);
    let t1 = split_first(tail, key);
    if tail.len() == 0 {
        assert(t1 == tail);
        assert(base64 + t1 =~= base64);
        lemma_split_first_absent(base64, amp);
        lemma_split_first_absent(base64, hash);
    } else {
        lemma_split_first_keeps_head(tail, key);
        lemma_char_not_before(base64, t1, amp);
        lemma_split_first_concat(base64, t1, amp);
        let t2 = split_first(t1, amp);
        if t1[0] == '&' {
            assert(t1.subrange(0, 1) =~= amp);
            lemma_split_first_at_start(t1, amp);
            assert(base64 + t2 =~= base64);
            lemma_split_first_absent(base64, hash);
        } else {
            lemma_split_first_keeps_head(t1, amp);
            lemma_char_not_before(base64, t2, hash);
            lemma_split_first_concat(base64, t2, hash);
            assert(t2.subrange(0, 1) =~= hash);
            lemma_split_first_at_start(t2, hash);
            assert(base64 + Seq::<char>::empty() =~= base64);
        }
    }
}

/// An address `PREFIX` + `token=` + `BASE64` + `TAIL` as above, whose
/// Base64 text decodes to the UTF-8 bytes of a signed text, yields the
/// token of that text.
pub proof fn lemma_address_yields_token(
    prefix: Seq<char>,
    base64: Seq<char>,
    tail: Seq<char>,
    signature: Seq<char>,
    token: Seq<char>,
    private_token: Option<Seq<char>>,
)
    requires
        !contains(prefix, "token="@),
        !contains(base64, "token="@),
        !contains(base64, "&"@),
        !contains(base64, "#"@),
        tail.len() == 0 || tail[0] == '&' || tail[0] == '#',
        base64_standard_decode(base64) == Some(encode_utf8(signed_text(signature, token, private_token))),
        forall|i: int| 0 <= i < signature.len() ==> signature[i] != ':',
        is_token_text(token),
    ensures
        sso_outcome(prefix + "token="@ + base64 + tail) == Ok::<Seq<u8>, SsoErrorView>(token_bytes(token)),
{
    lemma_base64_part_of_address(prefix, base64, tail);
    let text = signed_text(signature, token, private_token);
    encode_utf8_valid_utf8(text);
    encode_utf8_decode_utf8(text);
    lemma_token_is_second_part(signature, token, private_token);
}

// ---------------------------------------------------------------------
// Messages
// ---------------------------------------------------------------------

/// The message that reports an extraction error.
pub open spec fn sso_error_message(e: &SsoTokenError) -> Seq<char> {
    match e {
        SsoTokenError::MissingTokenParameter => "Invalid SSO URL: missing 'token=' parameter"@,
        SsoTokenError::InvalidBase64(m) => "Failed to decode Base64: "@ + m@,
        SsoTokenError::InvalidUtf8(m) => "Invalid UTF-8 in decoded token: "@ + m@,
        SsoTokenError::InvalidFormat(d) =>
            "Invalid token format. Expected 'SIGNATURE:::TOKEN[:::PRIVATE_TOKEN]', got: "@ + d@,
        SsoTokenError::InvalidLength(n, v) => "Invalid token length. Expected 32 hex chars, got "@
            + decimal(*n as nat) + " (value: "@ + v@ + ")"@,
        SsoTokenError::InvalidToken(v) => "Failed to parse token: not hexadecimal: "@ + v@,
    }
}

impl SsoTokenError {
    /// The message that reports the error.
    pub fn message(&self) -> (m: String)
        ensures
            m@ == sso_error_message(self),
    {
        match self {
            SsoTokenError::MissingTokenParameter => "Invalid SSO URL: missing 'token=' parameter".to_string(),
            SsoTokenError::InvalidBase64(e) => {
                let mut m = "Failed to decode Base64: ".to_string();
                m.append(e.as_str());
                m
            },
            SsoTokenError::InvalidUtf8(e) => {
                let mut m = "Invalid UTF-8 in decoded token: ".to_string();
                m.append(e.as_str());
                m
            },
            SsoTokenError::InvalidFormat(d) => {
                let mut m =
                    "Invalid token format. Expected 'SIGNATURE:::TOKEN[:::PRIVATE_TOKEN]', got: ".to_string();
                m.append(d.as_str());
                m
            },
            SsoTokenError::InvalidLength(n, v) => {
                let mut m = "Invalid token length. Expected 32 hex chars, got ".to_string();
                push_decimal(&mut m, *n as u64);
                m.append(" (value: ");
                m.append(v.as_str());
                m.append(")");
                m
            },
            SsoTokenError::InvalidToken(v) => {
                let mut m = "Failed to parse token: not hexadecimal: ".to_string();
                m.append(v.as_str());
                m
            },
        }
    }
}

// ---------------------------------------------------------------------
// The address that starts a single sign-on
// ---------------------------------------------------------------------

/// `s` without the slashes at its end.
pub open spec fn without_trailing_slashes(s: Seq<char>) -> Seq<char>
    decreases s.len(),
{
    if s.len() > 0 && s.last() == '/' {
        without_trailing_slashes(s.drop_last())
    } else {
        s
    }
}

/// The page of a site that starts a single sign-on for the mobile app.
pub open spec fn sso_launch_address(site_url: Seq<char>) -> Seq<char> {
    without_trailing_slashes(site_url)
        + "/admin/tool/mobile/launch.php?service=moodle_mobile_app&passport=12345&urlscheme=moodlemobile"@
}

/// The address of the page that starts a single sign-on, for the site at
/// `site_url`.
pub fn sso_launch_url(site_url: &str) -> (r: String)
    ensures
        r@ == sso_launch_address(site_url@),
{
    let cs = chars_of(site_url);
    let mut n = cs.len();
    assert(cs@.take(cs@.len() as int) == cs@);
    while n > 0 && cs[n - 1] == '/'
        invariant
            n <= cs@.len(),
            without_trailing_slashes(cs@) == without_trailing_slashes(cs@.take(n as int)),
        decreases n,
    {
        assert(cs@.take(n as int).drop_last() == cs@.take(n - 1));
        assert(cs@.take(n as int).last() == cs@[n - 1]);
        n = n - 1;
    }
    let mut r = string_of_chars(&cs, 0, n);
    assert(cs@.subrange(0, n as int) == cs@.take(n as int));
    r.append("/admin/tool/mobile/launch.php?service=moodle_mobile_app&passport=12345&urlscheme=moodlemobile");
    r
}

} // verus!
