use edu_sync_cli::configure::{auth_method, chosen_auth_method, configured, AuthMethod};
use edu_sync_cli::Render;

#[test]
fn auth_method_precedence() {
    assert_eq!(auth_method(true, true, true), AuthMethod::Token);
    assert_eq!(auth_method(false, true, true), AuthMethod::Sso);
    assert_eq!(auth_method(false, false, true), AuthMethod::Password);
    assert_eq!(auth_method(false, false, false), AuthMethod::Ask);
    assert_eq!(chosen_auth_method(0), AuthMethod::Token);
    assert_eq!(chosen_auth_method(1), AuthMethod::Sso);
    assert_eq!(chosen_auth_method(2), AuthMethod::Password);
}

#[test]
fn configure_markdown() {
    let r = configured("Uni", "Ada", "https://m.example.com/", "/home/ada/Moodle");
    assert_eq!(r.status, "ok");
    assert_eq!(
        r.to_markdown(),
        "Successfully configured Moodle connection.\n\n- **Site**: Uni\n- **User**: Ada\n- **URL**: https://m.example.com/\n- **Download path**: /home/ada/Moodle"
    );
}
