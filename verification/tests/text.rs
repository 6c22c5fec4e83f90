use edu_sync_cli::output::render_error;
use edu_sync_cli::strip_html_tags;
use edu_sync_cli::text::{contains_ignore_case, parse_u64, str_contains};
use edu_sync_cli::OutputFormat;

#[test]
fn strip_html_tags_removes_tags() {
    assert_eq!(strip_html_tags("<p>Hello <b>world</b></p>"), "Hello world");
    assert_eq!(strip_html_tags("no tags"), "no tags");
    assert_eq!(strip_html_tags("a > b"), "a  b");
    assert_eq!(strip_html_tags("<unclosed tag"), "");
    assert_eq!(strip_html_tags(""), "");
}

#[test]
fn strip_html_tags_is_idempotent() {
    let once = strip_html_tags("<div>x<y>z</div> > w");
    assert_eq!(strip_html_tags(&once), once);
}

#[test]
fn render_error_markdown_and_json() {
    assert_eq!(render_error("boom", OutputFormat::Markdown), "Error: boom");
    assert_eq!(
        render_error("Course \"X\" not found.", OutputFormat::Json),
        r#"{"error": "Course \"X\" not found."}"#
    );
}

#[test]
fn render_error_json_keeps_plain_messages() {
    assert_eq!(
        render_error("No accounts configured.", OutputFormat::Json),
        r#"{"error": "No accounts configured."}"#
    );
}

#[test]
fn render_error_json_escapes_backslashes_and_control_characters() {
    let message = "C:\\temp\n\tfailed \u{1} \"x\"";
    let line = render_error(message, OutputFormat::Json);
    assert_eq!(line, r#"{"error": "C:\\temp\n\tfailed \u0001 \"x\""}"#);
    let value: serde_json::Value = serde_json::from_str(&line).unwrap();
    assert_eq!(value["error"], serde_json::Value::String(message.to_string()));
    assert_eq!(value.as_object().unwrap().len(), 1);
}

#[test]
fn render_error_json_of_a_single_backslash() {
    let line = render_error("\\", OutputFormat::Json);
    assert_eq!(line, r#"{"error": "\\"}"#);
    let value: serde_json::Value = serde_json::from_str(&line).unwrap();
    assert_eq!(value["error"], "\\");
}

#[test]
fn output_format_defaults_to_markdown() {
    assert_eq!(OutputFormat::default(), OutputFormat::Markdown);
}

#[test]
fn parse_u64_like_std() {
    for s in ["0", "42", "+7", "", "+", "-1", "12a", "18446744073709551615", "18446744073709551616", "007"] {
        assert_eq!(parse_u64(s), s.parse::<u64>().ok(), "input {:?}", s);
    }
}

#[test]
fn contains_ignores_case() {
    assert!(contains_ignore_case("Analyse Numérique", "NUMÉR"));
    assert!(!contains_ignore_case("Physics", "chem"));
    assert!(str_contains("abc", ""));
    assert!(!str_contains("abc", "abcd"));
}
