//! Setting up a connection: how the token is obtained, and the result.

use vstd::prelude::*;
use vstd::string::*;
use crate::output::Render;

verus! {

/// Where the token of a new connection comes from.
#[derive(Debug, Clone, Copy, PartialEq, Eq, Structural)]
pub enum AuthMethod {
    /// A token given directly.
    Token,
    /// The redirect address of a single sign-on.
    Sso,
    /// A login with user name and password.
    Password,
    /// Ask the user which of the three.
    Ask,
}

/// The source of the token: a token given wins over a sign-on address, which
/// wins over a user name; with none of them, the user is asked.
pub fn auth_method(has_token: bool, has_sso_url: bool, has_username: bool) -> (m: AuthMethod)
    ensures
        m == if has_token {
            AuthMethod::Token
        } else if has_sso_url {
            AuthMethod::Sso
        } else if has_username {
            AuthMethod::Password
        } else {
            AuthMethod::Ask
        },
{
    if has_token {
        AuthMethod::Token
    } else if has_sso_url {
        AuthMethod::Sso
    } else if has_username {
        AuthMethod::Password
    } else {
        AuthMethod::Ask
    }
}

/// The method that the user picks from the menu "Token (direct)", "SSO
/// (redirect URL)", "Username/Password", by index.
pub fn chosen_auth_method(index: usize) -> (m: AuthMethod)
    ensures
        m == if index == 0 {
            AuthMethod::Token
        } else if index == 1 {
            AuthMethod::Sso
        } else {
            AuthMethod::Password
        },
{
    if index == 0 {
        AuthMethod::Token
    } else if index == 1 {
        AuthMethod::Sso
    } else {
        AuthMethod::Password
    }
}

/// The result of the configure command.
#[derive(Debug)]
pub struct ConfigureResult {
    pub status: String,
    pub site: String,
    pub user: String,
    pub site_url: String,
    pub download_path: String,
}

/// The result of a successful configuration, with status "ok".
pub fn configured(site: &str, user: &str, site_url: &str, download_path: &str) -> (r: ConfigureResult)
    ensures
        r.status@ == "ok"@,
        r.site@ == site@,
        r.user@ == user@,
        r.site_url@ == site_url@,
        r.download_path@ == download_path@,
{
    ConfigureResult {
        status: "ok".to_string(),
        site: site.to_string(),
        user: user.to_string(),
        site_url: site_url.to_string(),
        download_path: download_path.to_string(),
    }
}

/// The markdown of a configuration's result.
pub open spec fn configure_markdown(r: &ConfigureResult) -> Seq<char> {
    "Successfully configured Moodle connection.\n\n- **Site**: "@ + r.site@ + "\n- **User**: "@
        + r.user@ + "\n- **URL**: "@ + r.site_url@ + "\n- **Download path**: "@ + r.download_path@
}

impl Render for ConfigureResult {
    open spec fn markdown(&self) -> Seq<char> {
        configure_markdown(self)
    }

    fn to_markdown(&self) -> (res: String) {
        let mut out = "Successfully configured Moodle connection.\n\n- **Site**: ".to_string();
        out.append(self.site.as_str());
        out.append("\n- **User**: ");
        out.append(self.user.as_str());
        out.append("\n- **URL**: ");
        out.append(self.site_url.as_str());
        out.append("\n- **Download path**: ");
        out.append(self.download_path.as_str());
        out
    }
}

} // verus!
